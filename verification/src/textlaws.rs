//! Laws about the text normalizer, chiefly: normalization is idempotent.
//!
//! The fixed-point law holds whenever the normalized text again passes the
//! three line filters and contains no doubled space. Normalization can
//! produce output that the filters of a second pass would reject — a line
//! can fall below the letter-ratio threshold only once joined with others —
//! so the filter conditions are stated as hypotheses. The doubled-space
//! condition is proved separately: it can only fail when the input holds a
//! zero-width space or byte-order mark between spaces, and for inputs free
//! of those characters `lemma_no_erased_no_double_space` discharges it.

use vstd::prelude::*;

use crate::chars::is_punct_char;
use crate::chars::is_ws_char;
use crate::header::is_header_line;
use crate::lines::join_nl;
use crate::lines::lemma_lines_of_single;
use crate::lines::lines_of;
use crate::lines::lemma_trim_borders;
use crate::lines::trim_end_rec;
use crate::lines::trim_spec;
use crate::lines::trim_start_rec;
use crate::text::blank_toc_lines;
use crate::text::collapse_punct_pre;
use crate::text::collapse_punct_spec;
use crate::text::collapse_ws_rec;
use crate::text::collapse_ws_spec;
use crate::text::ctl_keep;
use crate::text::fold_char;
use crate::text::fold_ligatures_spec;
use crate::text::hdr_keep;
use crate::text::is_toc_leader;
use crate::text::join_hyphen_spec;
use crate::text::keep_alpha_lines;
use crate::text::keep_alpha_step;
use crate::text::keep_header_lines;
use crate::text::keep_punct;
use crate::text::low_alpha_keep;
use crate::text::merge_lines_rec;
use crate::text::merge_lines_step;
use crate::text::normalize_spec;
use crate::text::punct_interval;
use crate::text::punct_run3_at;
use crate::text::strip_controls_spec;
use crate::text::strip_header_lines;
use crate::text::strip_toc_lines;

verus! {

/// Every character of `t` satisfies `p`.
pub open spec fn all_chars(t: Seq<char>, p: spec_fn(char) -> bool) -> bool {
    forall|i: int| 0 <= i < t.len() ==> #[trigger] p(t[i])
}

/// No two adjacent whitespace characters.
pub open spec fn no_adjacent_ws(t: Seq<char>) -> bool {
    forall|i: int| 0 <= i && i + 1 < t.len() ==> !(is_ws_char(#[trigger] t[i]) && is_ws_char(t[i + 1]))
}

/// No three adjacent punctuation marks.
pub open spec fn no_punct_trio(t: Seq<char>) -> bool {
    forall|i: int|
        0 <= i && i + 2 < t.len() ==> !(is_punct_char(#[trigger] t[i]) && is_punct_char(t[i + 1])
            && is_punct_char(t[i + 2]))
}

// ---------- propagation of per-character properties ----------

proof fn lemma_all_chars_skip(t: Seq<char>, p: spec_fn(char) -> bool)
    requires
        all_chars(t, p),
        t.len() > 0,
    ensures
        all_chars(t.skip(1), p),
{
    assert forall|i: int| 0 <= i < t.skip(1).len() implies #[trigger] p(t.skip(1)[i]) by {
        assert(t.skip(1)[i] == t[i + 1]);
    }
}

proof fn lemma_trim_start_all(t: Seq<char>, p: spec_fn(char) -> bool)
    requires
        all_chars(t, p),
    ensures
        all_chars(trim_start_rec(t), p),
    decreases t.len(),
{
    if t.len() > 0 && is_ws_char(t[0]) {
        lemma_all_chars_skip(t, p);
        lemma_trim_start_all(t.skip(1), p);
    }
}

proof fn lemma_trim_end_all(t: Seq<char>, p: spec_fn(char) -> bool)
    requires
        all_chars(t, p),
    ensures
        all_chars(trim_end_rec(t), p),
    decreases t.len(),
{
    if t.len() > 0 && is_ws_char(t.last()) {
        lemma_trim_end_all(t.drop_last(), p);
    }
}

pub proof fn lemma_trim_all(t: Seq<char>, p: spec_fn(char) -> bool)
    requires
        all_chars(t, p),
    ensures
        all_chars(trim_spec(t), p),
{
    lemma_trim_start_all(t, p);
    lemma_trim_end_all(trim_start_rec(t), p);
}

/// Punctuation collapsing only removes characters.
proof fn lemma_collapse_punct_all(t: Seq<char>, n: int, p: spec_fn(char) -> bool)
    requires
        all_chars(t, p),
        0 <= n <= t.len(),
    ensures
        all_chars(collapse_punct_pre(t, n), p),
    decreases n,
{
    if n > 0 {
        lemma_collapse_punct_all(t, n - 1, p);
    }
}

/// Ligature folding emits only replacement letters, spaces, and characters
/// of the input.
proof fn lemma_fold_all(t: Seq<char>, p: spec_fn(char) -> bool)
    requires
        all_chars(t, p),
        p('f') && p('i') && p('l') && p('o') && p('e') && p('a') && p(' '),
    ensures
        all_chars(fold_ligatures_spec(t), p),
    decreases t.len(),
{
    if t.len() > 0 {
        lemma_fold_all(t.drop_last(), p);
        assert(all_chars(fold_char(t.last()), p));
    }
}

/// Whitespace collapsing emits only spaces and non-whitespace input
/// characters.
proof fn lemma_collapse_ws_all(t: Seq<char>, prev: bool, p: spec_fn(char) -> bool)
    requires
        forall|i: int| 0 <= i < t.len() && !is_ws_char(t[i]) ==> #[trigger] p(t[i]),
        p(' '),
    ensures
        all_chars(collapse_ws_rec(t, prev), p),
    decreases t.len(),
{
    if t.len() > 0 {
        assert forall|i: int|
            0 <= i < t.skip(1).len() && !is_ws_char(t.skip(1)[i]) implies #[trigger] p(
            t.skip(1)[i]) by {
            assert(t.skip(1)[i] == t[i + 1]);
        }
        lemma_collapse_ws_all(t.skip(1), is_ws_char(t[0]), p);
    }
}

/// Every whitespace character is a plain space.
pub open spec fn ws_is_space(t: Seq<char>) -> bool {
    forall|i: int| 0 <= i < t.len() ==> (is_ws_char(t[i]) ==> t[i] == ' ')
}

/// Every whitespace character that whitespace collapsing emits is a space.
proof fn lemma_collapse_ws_spaces(t: Seq<char>, prev: bool)
    ensures
        ws_is_space(collapse_ws_rec(t, prev)),
    decreases t.len(),
{
    if t.len() > 0 {
        lemma_collapse_ws_spaces(t.skip(1), true);
        lemma_collapse_ws_spaces(t.skip(1), false);
    }
}

/// Every character is kept by control stripping.
pub open spec fn all_ctl_keep(t: Seq<char>) -> bool {
    forall|i: int| 0 <= i < t.len() ==> ctl_keep(t[i])
}

proof fn lemma_strip_controls_kept(t: Seq<char>)
    ensures
        all_ctl_keep(strip_controls_spec(t)),
    decreases t.len(),
{
    if t.len() > 0 {
        lemma_strip_controls_kept(t.drop_last());
    }
}

/// No character folds under ligature folding.
pub open spec fn no_foldable(t: Seq<char>) -> bool {
    forall|i: int| 0 <= i < t.len() ==> fold_char(t[i]) == seq![t[i]]
}

proof fn lemma_fold_no_foldable(t: Seq<char>)
    ensures
        no_foldable(fold_ligatures_spec(t)),
    decreases t.len(),
{
    if t.len() > 0 {
        lemma_fold_no_foldable(t.drop_last());
    }
}

// ---------- no punctuation trio after collapsing ----------

/// If the collapsed prefix ends in a punctuation mark, that mark is the
/// character just before the cut, and it was kept.
proof fn lemma_punct_last_origin(t: Seq<char>, n: int)
    requires
        0 <= n <= t.len(),
        collapse_punct_pre(t, n).len() >= 1,
        is_punct_char(collapse_punct_pre(t, n).last()),
    ensures
        n >= 1,
        collapse_punct_pre(t, n) == collapse_punct_pre(t, n - 1).push(t[n - 1]),
        collapse_punct_pre(t, n).last() == t[n - 1],
        keep_punct(t, n - 1),
        is_punct_char(t[n - 1]),
    decreases n,
{
    if n >= 1 {
        if keep_punct(t, n - 1) {
            assert(collapse_punct_pre(t, n) =~= collapse_punct_pre(t, n - 1).push(t[n - 1]));
        } else {
            // the dropped character was punctuation inside a run of three
            // with punctuation following; the previous kept punctuation
            // mark would then also sit in such a run, a contradiction
            assert(collapse_punct_pre(t, n) =~= collapse_punct_pre(t, n - 1));
            lemma_punct_last_origin(t, n - 1);
            assert(is_punct_char(t[n - 2]) && keep_punct(t, n - 2));
            assert(is_punct_char(t[n - 1]) && punct_run3_at(t, n - 1) && n < t.len()
                && is_punct_char(t[n]));
            assert(punct_interval(t, n - 2, n + 1)) by {
                assert forall|k: int| n - 2 <= k < n + 1 implies is_punct_char(t[k]) by {
                    assert(k == n - 2 || k == n - 1 || k == n);
                }
            }
            assert(punct_run3_at(t, n - 2));
            assert(false);
        }
    }
}

proof fn lemma_collapse_punct_no_trio_pre(t: Seq<char>, n: int)
    requires
        0 <= n <= t.len(),
    ensures
        no_punct_trio(collapse_punct_pre(t, n)),
    decreases n,
{
    if n > 0 {
        lemma_collapse_punct_no_trio_pre(t, n - 1);
        let prev = collapse_punct_pre(t, n - 1);
        let out = collapse_punct_pre(t, n);
        let m = out.len() as int;
        assert forall|i: int|
            0 <= i && i + 2 < m implies !(is_punct_char(#[trigger] out[i]) && is_punct_char(
            out[i + 1],
        ) && is_punct_char(out[i + 2])) by {
            if is_punct_char(out[i]) && is_punct_char(out[i + 1]) && is_punct_char(out[i + 2]) {
                if !keep_punct(t, n - 1) {
                    assert(out =~= prev);
                    assert(false);
                } else {
                    assert(out =~= prev.push(t[n - 1]));
                    if i + 3 < m {
                        assert(is_punct_char(prev[i]) && is_punct_char(prev[i + 1])
                            && is_punct_char(prev[i + 2]));
                        assert(false);
                    } else {
                        // the trio ends at the newly kept character; walk
                        // the last three characters back to t[n-3..n)
                        lemma_punct_last_origin(t, n);
                        assert(is_punct_char(prev.last()));
                        lemma_punct_last_origin(t, n - 1);
                        assert(is_punct_char(collapse_punct_pre(t, n - 2).last()));
                        lemma_punct_last_origin(t, n - 2);
                        assert(is_punct_char(t[n - 3]) && is_punct_char(t[n - 2])
                            && is_punct_char(t[n - 1]));
                        assert(punct_interval(t, n - 3, n)) by {
                            assert forall|k: int| n - 3 <= k < n implies is_punct_char(t[k]) by {
                                assert(k == n - 3 || k == n - 2 || k == n - 1);
                            }
                        }
                        assert(punct_run3_at(t, n - 2));
                        assert(keep_punct(t, n - 2));
                        assert(false);
                    }
                }
            }
        }
    }
}

/// Collapsed text never contains three adjacent punctuation marks.
pub proof fn lemma_collapse_punct_no_trio(t: Seq<char>)
    ensures
        no_punct_trio(collapse_punct_spec(t)),
{
    lemma_collapse_punct_no_trio_pre(t, t.len() as int);
}

proof fn lemma_trim_start_no_trio(t: Seq<char>)
    requires
        no_punct_trio(t),
    ensures
        no_punct_trio(trim_start_rec(t)),
    decreases t.len(),
{
    if t.len() > 0 && is_ws_char(t[0]) {
        assert forall|i: int|
            0 <= i && i + 2 < t.skip(1).len() implies !(is_punct_char(#[trigger] t.skip(1)[i])
            && is_punct_char(t.skip(1)[i + 1]) && is_punct_char(t.skip(1)[i + 2])) by {
            assert(t.skip(1)[i] == t[i + 1]);
            assert(t.skip(1)[i + 1] == t[i + 2]);
            assert(t.skip(1)[i + 2] == t[i + 3]);
        }
        lemma_trim_start_no_trio(t.skip(1));
    }
}

proof fn lemma_trim_end_no_trio(t: Seq<char>)
    requires
        no_punct_trio(t),
    ensures
        no_punct_trio(trim_end_rec(t)),
    decreases t.len(),
{
    if t.len() > 0 && is_ws_char(t.last()) {
        lemma_trim_end_no_trio(t.drop_last());
    }
}

pub proof fn lemma_trim_no_trio(t: Seq<char>)
    requires
        no_punct_trio(t),
    ensures
        no_punct_trio(trim_spec(t)),
{
    lemma_trim_start_no_trio(t);
    lemma_trim_end_no_trio(trim_start_rec(t));
}

// ---------- identity of each step on normalized text ----------

/// No newline character.
pub open spec fn no_newline(t: Seq<char>) -> bool {
    forall|i: int| 0 <= i < t.len() ==> t[i] != '\n'
}

/// Hyphen joining is the identity on text with no newline.
proof fn lemma_join_hyphen_id(t: Seq<char>)
    requires
        no_newline(t),
    ensures
        join_hyphen_spec(t) == t,
    decreases t.len(),
{
    if t.len() > 0 {
        assert forall|i: int| 0 <= i < t.skip(1).len() implies t.skip(1)[i] != '\n' by {
            assert(t.skip(1)[i] == t[i + 1]);
        }
        lemma_join_hyphen_id(t.skip(1));
        assert(join_hyphen_spec(t) =~= t);
    }
}

/// Control stripping is the identity when every character is kept.
proof fn lemma_strip_controls_id(t: Seq<char>)
    requires
        all_ctl_keep(t),
    ensures
        strip_controls_spec(t) == t,
    decreases t.len(),
{
    if t.len() > 0 {
        lemma_strip_controls_id(t.drop_last());
        assert(strip_controls_spec(t) =~= t);
    }
}

/// Whitespace collapsing is the identity when every whitespace character is
/// a lone space.
proof fn lemma_collapse_ws_id(t: Seq<char>, prev: bool)
    requires
        ws_is_space(t),
        no_adjacent_ws(t),
        prev ==> (t.len() == 0 || !is_ws_char(t[0])),
    ensures
        collapse_ws_rec(t, prev) == t,
    decreases t.len(),
{
    if t.len() > 0 {
        assert forall|i: int|
            0 <= i < t.skip(1).len() implies (is_ws_char(#[trigger] t.skip(1)[i]) ==> t.skip(
            1,
        )[i] == ' ') by {
            assert(t.skip(1)[i] == t[i + 1]);
        }
        assert forall|i: int|
            0 <= i && i + 1 < t.skip(1).len() implies !(is_ws_char(#[trigger] t.skip(1)[i])
            && is_ws_char(t.skip(1)[i + 1])) by {
            assert(t.skip(1)[i] == t[i + 1]);
            assert(t.skip(1)[i + 1] == t[i + 2]);
        }
        if is_ws_char(t[0]) {
            assert(t.len() >= 2 ==> !is_ws_char(t[1]));
            assert(t.skip(1).len() > 0 ==> t.skip(1)[0] == t[1]);
            lemma_collapse_ws_id(t.skip(1), true);
            assert(t[0] == ' ');
            assert(collapse_ws_rec(t, prev) =~= t);
        } else {
            lemma_collapse_ws_id(t.skip(1), false);
            assert(collapse_ws_rec(t, prev) =~= t);
        }
    }
}

/// Ligature folding is the identity when no character folds.
proof fn lemma_fold_id(t: Seq<char>)
    requires
        no_foldable(t),
    ensures
        fold_ligatures_spec(t) == t,
    decreases t.len(),
{
    if t.len() > 0 {
        lemma_fold_id(t.drop_last());
        assert(fold_ligatures_spec(t) =~= t);
    }
}

/// Punctuation collapsing is the identity on text with no punctuation trio.
proof fn lemma_collapse_punct_id_pre(t: Seq<char>, n: int)
    requires
        no_punct_trio(t),
        0 <= n <= t.len(),
    ensures
        collapse_punct_pre(t, n) == t.take(n),
    decreases n,
{
    if n > 0 {
        lemma_collapse_punct_id_pre(t, n - 1);
        if !keep_punct(t, n - 1) {
            assert(punct_run3_at(t, n - 1));
            let (a, b) = choose|a: int, b: int|
                0 <= a <= n - 1 < b <= t.len() && b - a >= 3 && #[trigger] punct_interval(
                    t,
                    a,
                    b,
                );
            assert(is_punct_char(t[a]) && is_punct_char(t[a + 1]) && is_punct_char(t[a + 2]));
            assert(false);
        }
        assert(t.take(n).drop_last() =~= t.take(n - 1));
        assert(collapse_punct_pre(t, n) =~= t.take(n));
    }
}

// ---------- no doubled whitespace after normalization ----------

/// Characters that ligature folding erases outright: the zero-width space
/// and the byte-order mark.
pub open spec fn is_erased_char(c: char) -> bool {
    c as u32 == 0x200B || c as u32 == 0xFEFF
}

/// Nothing in `t` is erased by ligature folding.
pub open spec fn no_erased(t: Seq<char>) -> bool {
    forall|i: int| 0 <= i < t.len() ==> !is_erased_char(t[i])
}

/// After a run was opened, collapsing never emits leading whitespace.
proof fn lemma_collapse_ws_first(t: Seq<char>)
    ensures
        collapse_ws_rec(t, true).len() > 0 ==> !is_ws_char(collapse_ws_rec(t, true)[0]),
    decreases t.len(),
{
    if t.len() > 0 && is_ws_char(t[0]) {
        lemma_collapse_ws_first(t.skip(1));
    }
}

/// Whitespace collapsing never emits two adjacent whitespace characters.
proof fn lemma_collapse_ws_no_adjacent(t: Seq<char>, prev: bool)
    ensures
        no_adjacent_ws(collapse_ws_rec(t, prev)),
    decreases t.len(),
{
    if t.len() > 0 {
        let rest = collapse_ws_rec(t.skip(1), is_ws_char(t[0]));
        lemma_collapse_ws_no_adjacent(t.skip(1), is_ws_char(t[0]));
        let out = collapse_ws_rec(t, prev);
        assert forall|i: int|
            0 <= i && i + 1 < out.len() implies !(is_ws_char(#[trigger] out[i]) && is_ws_char(
            out[i + 1],
        )) by {
            if is_ws_char(t[0]) {
                if !prev {
                    // out == [' '] + rest
                    if i == 0 {
                        lemma_collapse_ws_first(t.skip(1));
                        assert(out[1] == rest[0]);
                    } else {
                        assert(out[i] == rest[i - 1]);
                        assert(out[i + 1] == rest[i]);
                    }
                } else {
                    assert(out[i] == rest[i]);
                    assert(out[i + 1] == rest[i + 1]);
                }
            } else {
                // out == [t[0]] + rest
                if i == 0 {
                    assert(out[0] == t[0]);
                } else {
                    assert(out[i] == rest[i - 1]);
                    assert(out[i + 1] == rest[i]);
                }
            }
        }
    }
}

/// What ligature folding emits for one character keeps whitespace at its
/// edges only when the character itself was whitespace, and never holds two
/// adjacent whitespace characters.
proof fn lemma_fold_char_ws(c: char)
    requires
        !is_erased_char(c),
    ensures
        fold_char(c).len() > 0,
        is_ws_char(fold_char(c)[0]) ==> is_ws_char(c),
        is_ws_char(fold_char(c).last()) ==> is_ws_char(c),
        no_adjacent_ws(fold_char(c)),
{
}

/// The last character that folding emits comes from the last input
/// character.
proof fn lemma_fold_last(t: Seq<char>)
    requires
        t.len() > 0,
        !is_erased_char(t.last()),
    ensures
        fold_ligatures_spec(t).len() > 0,
        fold_ligatures_spec(t).last() == fold_char(t.last()).last(),
{
    lemma_fold_char_ws(t.last());
    assert(fold_ligatures_spec(t) == fold_ligatures_spec(t.drop_last()) + fold_char(t.last()));
}

/// Ligature folding keeps whitespace characters apart when nothing is
/// erased.
proof fn lemma_fold_no_adjacent(t: Seq<char>)
    requires
        no_adjacent_ws(t),
        no_erased(t),
    ensures
        no_adjacent_ws(fold_ligatures_spec(t)),
    decreases t.len(),
{
    if t.len() > 0 {
        let prefix = fold_ligatures_spec(t.drop_last());
        let piece = fold_char(t.last());
        let out = fold_ligatures_spec(t);
        assert forall|i: int|
            0 <= i && i + 1 < t.drop_last().len() implies !(is_ws_char(
            #[trigger] t.drop_last()[i],
        ) && is_ws_char(t.drop_last()[i + 1])) by {
            assert(t.drop_last()[i] == t[i]);
            assert(t.drop_last()[i + 1] == t[i + 1]);
        }
        lemma_fold_no_adjacent(t.drop_last());
        lemma_fold_char_ws(t.last());
        assert forall|i: int|
            0 <= i && i + 1 < out.len() implies !(is_ws_char(#[trigger] out[i]) && is_ws_char(
            out[i + 1],
        )) by {
            let pl = prefix.len() as int;
            if i + 1 < pl {
                assert(out[i] == prefix[i]);
                assert(out[i + 1] == prefix[i + 1]);
            } else if i + 1 == pl {
                // the pair spans the boundary between the folded prefix and
                // the piece for the last character
                assert(out[i] == prefix[i]);
                assert(out[i + 1] == piece[0]);
                if is_ws_char(out[i]) && is_ws_char(out[i + 1]) {
                    assert(t.drop_last().len() > 0);
                    assert(!is_erased_char(t.drop_last().last()));
                    lemma_fold_last(t.drop_last());
                    assert(prefix.last() == fold_char(t.drop_last().last()).last());
                    lemma_fold_char_ws(t.drop_last().last());
                    assert(is_ws_char(t[t.len() - 2]));
                    assert(is_ws_char(t[t.len() - 1]));
                    assert(false);
                }
            } else {
                assert(out[i] == piece[i - pl]);
                assert(out[i + 1] == piece[i + 1 - pl]);
            }
        }
    }
}

/// Punctuation collapsing keeps whitespace characters apart: a dropped mark
/// always has another mark after it, so no two whitespace characters become
/// neighbors.
proof fn lemma_collapse_punct_no_adjacent_pre(t: Seq<char>, n: int)
    requires
        no_adjacent_ws(t),
        0 <= n <= t.len(),
    ensures
        no_adjacent_ws(collapse_punct_pre(t, n)),
    decreases n,
{
    if n > 0 {
        lemma_collapse_punct_no_adjacent_pre(t, n - 1);
        let prev = collapse_punct_pre(t, n - 1);
        let out = collapse_punct_pre(t, n);
        let m = out.len() as int;
        assert forall|i: int|
            0 <= i && i + 1 < m implies !(is_ws_char(#[trigger] out[i]) && is_ws_char(
            out[i + 1],
        )) by {
            if is_ws_char(out[i]) && is_ws_char(out[i + 1]) {
                if !keep_punct(t, n - 1) {
                    assert(out =~= prev);
                    assert(false);
                } else {
                    assert(out =~= prev.push(t[n - 1]));
                    if i + 2 < m {
                        assert(is_ws_char(prev[i]) && is_ws_char(prev[i + 1]));
                        assert(false);
                    } else {
                        // the pair ends at the newly kept character, which
                        // is whitespace, so the character before it was
                        // kept as well: a dropped mark needs a mark after it
                        assert(out[i + 1] == t[n - 1]);
                        assert(is_ws_char(t[n - 1]));
                        assert(!is_punct_char(t[n - 1]));
                        assert(n >= 2);
                        if !keep_punct(t, n - 2) {
                            assert(is_punct_char(t[n - 1]));
                            assert(false);
                        }
                        assert(collapse_punct_pre(t, n - 1) =~= collapse_punct_pre(
                            t,
                            n - 2,
                        ).push(t[n - 2]));
                        assert(out[i] == t[n - 2]);
                        assert(is_ws_char(t[n - 2]) && is_ws_char(t[n - 1]));
                        assert(false);
                    }
                }
            }
        }
    }
}

proof fn lemma_trim_start_no_adjacent(t: Seq<char>)
    requires
        no_adjacent_ws(t),
    ensures
        no_adjacent_ws(trim_start_rec(t)),
    decreases t.len(),
{
    if t.len() > 0 && is_ws_char(t[0]) {
        assert forall|i: int|
            0 <= i && i + 1 < t.skip(1).len() implies !(is_ws_char(#[trigger] t.skip(1)[i])
            && is_ws_char(t.skip(1)[i + 1])) by {
            assert(t.skip(1)[i] == t[i + 1]);
            assert(t.skip(1)[i + 1] == t[i + 2]);
        }
        lemma_trim_start_no_adjacent(t.skip(1));
    }
}

proof fn lemma_trim_end_no_adjacent(t: Seq<char>)
    requires
        no_adjacent_ws(t),
    ensures
        no_adjacent_ws(trim_end_rec(t)),
    decreases t.len(),
{
    if t.len() > 0 && is_ws_char(t.last()) {
        lemma_trim_end_no_adjacent(t.drop_last());
    }
}

/// Every line of a line sequence satisfies `p` on every character.
pub open spec fn all_lines(ls: Seq<Seq<char>>, p: spec_fn(char) -> bool) -> bool {
    forall|i: int| 0 <= i < ls.len() ==> all_chars(#[trigger] ls[i], p)
}

/// A text always has at least one line.
proof fn lemma_lines_of_nonempty(t: Seq<char>)
    ensures
        lines_of(t).len() >= 1,
    decreases t.len(),
{
    if t.len() > 0 {
        lemma_lines_of_nonempty(t.drop_last());
    }
}

proof fn lemma_lines_of_all(t: Seq<char>, p: spec_fn(char) -> bool)
    requires
        all_chars(t, p),
    ensures
        all_lines(lines_of(t), p),
    decreases t.len(),
{
    if t.len() > 0 {
        assert forall|i: int| 0 <= i < t.drop_last().len() implies #[trigger] p(
            t.drop_last()[i],
        ) by {
            assert(t.drop_last()[i] == t[i]);
        }
        lemma_lines_of_all(t.drop_last(), p);
        lemma_lines_of_nonempty(t.drop_last());
        let prior = lines_of(t.drop_last());
        let ls = lines_of(t);
        assert forall|i: int| 0 <= i < ls.len() implies all_chars(#[trigger] ls[i], p) by {
            if t.last() == '\n' {
                if i < prior.len() {
                    assert(ls[i] == prior[i]);
                } else {
                    assert(ls[i] =~= Seq::<char>::empty());
                }
            } else {
                if i < prior.len() - 1 {
                    assert(ls[i] == prior[i]);
                } else {
                    assert(ls[i] == prior.last().push(t.last()));
                    assert(all_chars(prior.last(), p));
                    assert(p(t.last()));
                    assert forall|j: int| 0 <= j < ls[i].len() implies #[trigger] p(
                        ls[i][j],
                    ) by {
                        if j < prior.last().len() {
                            assert(ls[i][j] == prior.last()[j]);
                        } else {
                            assert(ls[i][j] == t.last());
                        }
                    }
                }
            }
        }
    }
}

proof fn lemma_join_nl_all(ls: Seq<Seq<char>>, p: spec_fn(char) -> bool)
    requires
        all_lines(ls, p),
        p('\n'),
    ensures
        all_chars(join_nl(ls), p),
    decreases ls.len(),
{
    if ls.len() > 1 {
        assert forall|i: int| 0 <= i < ls.drop_last().len() implies all_chars(
            #[trigger] ls.drop_last()[i],
            p,
        ) by {
            assert(ls.drop_last()[i] == ls[i]);
        }
        lemma_join_nl_all(ls.drop_last(), p);
        let prefix = join_nl(ls.drop_last());
        let out = join_nl(ls);
        assert forall|i: int| 0 <= i < out.len() implies #[trigger] p(out[i]) by {
            if i < prefix.len() {
                assert(out[i] == prefix[i]);
            } else if i == prefix.len() {
                assert(out[i] == '\n');
            } else {
                assert(out[i] == ls.last()[i - prefix.len() - 1]);
                assert(all_chars(ls.last(), p));
            }
        }
    }
}

proof fn lemma_keep_header_all(ls: Seq<Seq<char>>, p: spec_fn(char) -> bool)
    requires
        all_lines(ls, p),
    ensures
        all_lines(keep_header_lines(ls), p),
    decreases ls.len(),
{
    if ls.len() > 0 {
        assert forall|i: int| 0 <= i < ls.drop_last().len() implies all_chars(
            #[trigger] ls.drop_last()[i],
            p,
        ) by {
            assert(ls.drop_last()[i] == ls[i]);
        }
        lemma_keep_header_all(ls.drop_last(), p);
        let r = keep_header_lines(ls.drop_last());
        let out = keep_header_lines(ls);
        assert forall|i: int| 0 <= i < out.len() implies all_chars(#[trigger] out[i], p) by {
            if hdr_keep(ls.last()) && i == out.len() - 1 {
                assert(out[i] == ls.last());
            } else {
                assert(out[i] == r[i]);
            }
        }
    }
}

proof fn lemma_blank_toc_all(ls: Seq<Seq<char>>, p: spec_fn(char) -> bool)
    requires
        all_lines(ls, p),
    ensures
        all_lines(blank_toc_lines(ls), p),
    decreases ls.len(),
{
    if ls.len() > 0 {
        assert forall|i: int| 0 <= i < ls.drop_last().len() implies all_chars(
            #[trigger] ls.drop_last()[i],
            p,
        ) by {
            assert(ls.drop_last()[i] == ls[i]);
        }
        lemma_blank_toc_all(ls.drop_last(), p);
        let r = blank_toc_lines(ls.drop_last());
        let out = blank_toc_lines(ls);
        assert forall|i: int| 0 <= i < out.len() implies all_chars(#[trigger] out[i], p) by {
            if i == out.len() - 1 {
                if is_toc_leader(ls.last()) {
                    assert(out[i] =~= Seq::<char>::empty());
                } else {
                    assert(out[i] == ls.last());
                }
            } else {
                assert(out[i] == r[i]);
            }
        }
    }
}

proof fn lemma_keep_alpha_all(ls: Seq<Seq<char>>, p: spec_fn(char) -> bool)
    requires
        all_lines(ls, p),
    ensures
        all_lines(keep_alpha_lines(ls), p),
    decreases ls.len(),
{
    if ls.len() > 0 {
        assert forall|i: int| 0 <= i < ls.drop_last().len() implies all_chars(
            #[trigger] ls.drop_last()[i],
            p,
        ) by {
            assert(ls.drop_last()[i] == ls[i]);
        }
        lemma_keep_alpha_all(ls.drop_last(), p);
        let r = keep_alpha_lines(ls.drop_last());
        let out = keep_alpha_lines(ls);
        assert forall|i: int| 0 <= i < out.len() implies all_chars(#[trigger] out[i], p) by {
            if low_alpha_keep(ls.last()) && i == out.len() - 1 {
                assert(out[i] == ls.last());
            } else {
                assert(out[i] == r[i]);
            }
        }
    }
}

proof fn lemma_join_hyphen_all(t: Seq<char>, p: spec_fn(char) -> bool)
    requires
        all_chars(t, p),
    ensures
        all_chars(join_hyphen_spec(t), p),
    decreases t.len(),
{
    if t.len() >= 2 && t[0] == '-' && t[1] == '\n' {
        assert forall|i: int| 0 <= i < t.skip(2).len() implies #[trigger] p(t.skip(2)[i]) by {
            assert(t.skip(2)[i] == t[i + 2]);
        }
        lemma_join_hyphen_all(t.skip(2), p);
    } else if t.len() > 0 {
        lemma_all_chars_skip(t, p);
        lemma_join_hyphen_all(t.skip(1), p);
        let rest = join_hyphen_spec(t.skip(1));
        let out = join_hyphen_spec(t);
        assert forall|i: int| 0 <= i < out.len() implies #[trigger] p(out[i]) by {
            if i == 0 {
                assert(out[0] == t[0]);
            } else {
                assert(out[i] == rest[i - 1]);
            }
        }
    }
}

proof fn lemma_merge_all(ls: Seq<Seq<char>>, p: spec_fn(char) -> bool)
    requires
        all_lines(ls, p),
        p(' '),
    ensures
        all_chars(merge_lines_rec(ls), p),
    decreases ls.len(),
{
    if ls.len() > 0 {
        assert forall|i: int| 0 <= i < ls.drop_last().len() implies all_chars(
            #[trigger] ls.drop_last()[i],
            p,
        ) by {
            assert(ls.drop_last()[i] == ls[i]);
        }
        lemma_merge_all(ls.drop_last(), p);
        let acc = merge_lines_rec(ls.drop_last());
        let line = trim_spec(ls.last());
        assert(all_chars(ls.last(), p));
        lemma_trim_all(ls.last(), p);
        let out = merge_lines_rec(ls);
        assert forall|i: int| 0 <= i < out.len() implies #[trigger] p(out[i]) by {
            if line.len() == 0 || (acc.len() > 0 && crate::chars::is_terminal_punct(
                acc.last(),
            )) || acc.len() == 0 {
                if i < acc.len() {
                    assert(out[i] == acc[i]);
                } else {
                    assert(out[i] == line[i - acc.len()]);
                }
            } else {
                if i < acc.len() {
                    assert(out[i] == acc[i]);
                } else if i == acc.len() {
                    assert(out[i] == ' ');
                } else {
                    assert(out[i] == line[i - acc.len() - 1]);
                }
            }
        }
    }
}

proof fn lemma_strip_controls_all(t: Seq<char>, p: spec_fn(char) -> bool)
    requires
        all_chars(t, p),
    ensures
        all_chars(strip_controls_spec(t), p),
    decreases t.len(),
{
    if t.len() > 0 {
        lemma_strip_controls_all(t.drop_last(), p);
        let prefix = strip_controls_spec(t.drop_last());
        let out = strip_controls_spec(t);
        assert forall|i: int| 0 <= i < out.len() implies #[trigger] p(out[i]) by {
            if i < prefix.len() {
                assert(out[i] == prefix[i]);
            } else {
                assert(out[i] == t.last());
            }
        }
    }
}

/// Law: when the input contains no zero-width space and no byte-order mark,
/// normalized text never holds two adjacent whitespace characters — the
/// doubled-space side condition of the fixed-point law holds by itself.
pub proof fn lemma_no_erased_no_double_space(t: Seq<char>, remove_headers: bool)
    requires
        no_erased(t),
    ensures
        no_adjacent_ws(normalize_spec(t, remove_headers)),
{
    let p_ne = |c: char| !is_erased_char(c);
    assert forall|i: int| 0 <= i < t.len() implies #[trigger] p_ne(t[i]) by {
        assert(!is_erased_char(t[i]));
    }
    assert(p_ne('\n') && p_ne(' '));
    let t1 = if remove_headers {
        strip_header_lines(t)
    } else {
        t
    };
    if remove_headers {
        lemma_lines_of_all(t, p_ne);
        lemma_keep_header_all(lines_of(t), p_ne);
        lemma_join_nl_all(keep_header_lines(lines_of(t)), p_ne);
    }
    assert(all_chars(t1, p_ne));
    lemma_lines_of_all(t1, p_ne);
    lemma_blank_toc_all(lines_of(t1), p_ne);
    lemma_join_nl_all(blank_toc_lines(lines_of(t1)), p_ne);
    let t2 = strip_toc_lines(t1);
    assert(all_chars(t2, p_ne));
    lemma_lines_of_all(t2, p_ne);
    lemma_keep_alpha_all(lines_of(t2), p_ne);
    lemma_join_nl_all(keep_alpha_lines(lines_of(t2)), p_ne);
    let t3 = keep_alpha_step(t2);
    assert(all_chars(t3, p_ne));
    lemma_join_hyphen_all(t3, p_ne);
    let t4 = join_hyphen_spec(t3);
    lemma_lines_of_all(t4, p_ne);
    lemma_merge_all(lines_of(t4), p_ne);
    let t5 = merge_lines_step(t4);
    lemma_strip_controls_all(t5, p_ne);
    let t6 = strip_controls_spec(t5);
    lemma_collapse_ws_no_adjacent(t6, false);
    assert(forall|i: int|
        0 <= i < t6.len() && !is_ws_char(t6[i]) ==> #[trigger] p_ne(t6[i]));
    lemma_collapse_ws_all(t6, false, p_ne);
    let t7 = collapse_ws_spec(t6);
    assert(no_erased(t7)) by {
        assert forall|i: int| 0 <= i < t7.len() implies !is_erased_char(t7[i]) by {
            assert(p_ne(t7[i]));
        }
    }
    lemma_fold_no_adjacent(t7);
    let t8 = fold_ligatures_spec(t7);
    lemma_collapse_punct_no_adjacent_pre(t8, t8.len() as int);
    let t9 = collapse_punct_spec(t8);
    lemma_trim_start_no_adjacent(t9);
    lemma_trim_end_no_adjacent(trim_start_rec(t9));
    assert(no_adjacent_ws(trim_spec(t9)));
}

// ---------- the fixed-point law ----------

/// Normalizing already-normalized text yields the same text: the output of
/// `normalize_spec` is a fixed point, provided it again passes the line
/// filters (not classified as a header when header removal is on, not
/// shaped like a leader line, enough letters) and contains no two adjacent
/// whitespace characters.
pub proof fn lemma_normalize_fixed_point(t: Seq<char>, remove_headers: bool)
    requires
        remove_headers ==> (normalize_spec(t, remove_headers).len() == 0 || !is_header_line(
            normalize_spec(t, remove_headers),
        )),
        !is_toc_leader(normalize_spec(t, remove_headers)),
        low_alpha_keep(normalize_spec(t, remove_headers)),
        no_adjacent_ws(normalize_spec(t, remove_headers)),
    ensures
        normalize_spec(normalize_spec(t, remove_headers), remove_headers) == normalize_spec(
            t,
            remove_headers,
        ),
{
    let t1 = if remove_headers {
        strip_header_lines(t)
    } else {
        t
    };
    let t2 = strip_toc_lines(t1);
    let t3 = keep_alpha_step(t2);
    let t4 = join_hyphen_spec(t3);
    let t5 = merge_lines_step(t4);
    let t6 = strip_controls_spec(t5);
    let t7 = collapse_ws_spec(t6);
    let t8 = fold_ligatures_spec(t7);
    let t9 = collapse_punct_spec(t8);
    let s = trim_spec(t9);
    assert(s == normalize_spec(t, remove_headers));

    // character-level facts about s
    let p_space = |c: char| is_ws_char(c) ==> c == ' ';
    lemma_collapse_ws_spaces(t6, false);
    assert(all_chars(t7, p_space));
    lemma_fold_all(t7, p_space);
    lemma_collapse_punct_all(t8, t8.len() as int, p_space);
    lemma_trim_all(t9, p_space);
    assert(ws_is_space(s)) by {
        assert(all_chars(s, p_space));
        assert forall|i: int| 0 <= i < s.len() implies (is_ws_char(s[i]) ==> s[i] == ' ') by {
            assert(p_space(s[i]));
        }
    }

    let p_ctl = |c: char| ctl_keep(c);
    lemma_strip_controls_kept(t5);
    assert(forall|i: int| 0 <= i < t6.len() && !is_ws_char(t6[i]) ==> #[trigger] p_ctl(t6[i]));
    lemma_collapse_ws_all(t6, false, p_ctl);
    lemma_fold_all(t7, p_ctl);
    lemma_collapse_punct_all(t8, t8.len() as int, p_ctl);
    lemma_trim_all(t9, p_ctl);
    assert(all_ctl_keep(s)) by {
        assert(all_chars(s, p_ctl));
        assert forall|i: int| 0 <= i < s.len() implies ctl_keep(s[i]) by {
            assert(p_ctl(s[i]));
        }
    }

    let p_fold = |c: char| fold_char(c) == seq![c];
    lemma_fold_no_foldable(t7);
    assert(all_chars(t8, p_fold));
    lemma_collapse_punct_all(t8, t8.len() as int, p_fold);
    lemma_trim_all(t9, p_fold);
    assert(no_foldable(s)) by {
        assert(all_chars(s, p_fold));
        assert forall|i: int| 0 <= i < s.len() implies fold_char(s[i]) == seq![s[i]] by {
            assert(p_fold(s[i]));
        }
    }

    lemma_collapse_punct_no_trio(t8);
    lemma_trim_no_trio(t9);
    assert(no_punct_trio(s));

    lemma_trim_borders(t9);
    assert(trim_spec(s) == s);

    // no newline anywhere in s: a newline is whitespace other than a space
    assert(no_newline(s)) by {
        assert forall|i: int| 0 <= i < s.len() implies s[i] != '\n' by {
            assert(p_space(s[i]));
            assert(is_ws_char('\n'));
        }
    }

    // the second pass leaves s unchanged, step by step
    lemma_lines_of_single(s);
    let s1 = if remove_headers {
        strip_header_lines(s)
    } else {
        s
    };
    if remove_headers {
        assert(keep_header_lines(Seq::<Seq<char>>::empty()) == Seq::<Seq<char>>::empty());
        if s.len() == 0 {
            assert(trim_spec(s) =~= s);
            assert(!hdr_keep(s));
            assert(keep_header_lines(seq![s]) =~= Seq::<Seq<char>>::empty()) by {
                assert(seq![s].drop_last() =~= Seq::<Seq<char>>::empty());
                assert(keep_header_lines(Seq::<Seq<char>>::empty())
                    == Seq::<Seq<char>>::empty());
                assert(seq![s].last() == s);
            }
            assert(s1 =~= s);
        } else {
            assert(hdr_keep(s));
            assert(keep_header_lines(seq![s]) =~~= seq![s]) by {
                assert(seq![s].drop_last() =~= Seq::<Seq<char>>::empty());
                assert(keep_header_lines(Seq::<Seq<char>>::empty())
                    == Seq::<Seq<char>>::empty());
                assert(seq![s].last() == s);
            }
            assert(s1 =~= s);
        }
    }
    assert(s1 == s);

    assert(blank_toc_lines(seq![s]) =~~= seq![s]) by {
        assert(seq![s].drop_last() =~= Seq::<Seq<char>>::empty());
        assert(blank_toc_lines(Seq::<Seq<char>>::empty()) == Seq::<Seq<char>>::empty());
        assert(seq![s].last() == s);
    }
    let s2 = strip_toc_lines(s1);
    assert(s2 =~= s);

    assert(keep_alpha_lines(seq![s]) =~~= seq![s]) by {
        assert(seq![s].drop_last() =~= Seq::<Seq<char>>::empty());
        assert(keep_alpha_lines(Seq::<Seq<char>>::empty()) == Seq::<Seq<char>>::empty());
        assert(seq![s].last() == s);
    }
    let s3 = keep_alpha_step(s2);
    assert(s3 =~= s);

    lemma_join_hyphen_id(s);
    let s4 = join_hyphen_spec(s3);
    assert(s4 == s);

    let s5 = merge_lines_step(s4);
    assert(s5 =~= s) by {
        assert(seq![s].drop_last() =~= Seq::<Seq<char>>::empty());
        assert(seq![s].last() == s);
        assert(merge_lines_rec(Seq::<Seq<char>>::empty()) =~= Seq::<char>::empty());
        assert(trim_spec(s) == s);
    }

    lemma_strip_controls_id(s5);
    let s6 = strip_controls_spec(s5);
    assert(s6 == s);

    lemma_collapse_ws_id(s6, false);
    let s7 = collapse_ws_spec(s6);
    assert(s7 == s);

    lemma_fold_id(s7);
    let s8 = fold_ligatures_spec(s7);
    assert(s8 == s);

    lemma_collapse_punct_id_pre(s8, s8.len() as int);
    let s9 = collapse_punct_spec(s8);
    assert(s.take(s.len() as int) =~= s);
    assert(s9 == s);

    assert(normalize_spec(s, remove_headers) == trim_spec(s9));
    assert(trim_spec(s9) == s);
}

} // verus!
