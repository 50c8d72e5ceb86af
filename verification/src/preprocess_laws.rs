//! Laws of the preprocessor, stated line by line over the lines of the
//! source: which lines lie outside code fences, which of them are
//! headings, what the outline lists, and what the output text is.

use vstd::prelude::*;
use crate::lines::{lemma_line_end, lemma_newline_from, line_end, lines_from, newline_from};
use crate::anchors::{lemma_anchored_heading, lemma_auto_id_plain, lemma_eol_back, lemma_existing_id_in_body, plain_id};
use crate::markdown::{is_closing_fence_spec, opening_fence_spec, parse_atx_heading_spec};
use crate::preprocess::{
    anchored_line, auto_heading_id, finished_output, line_ending, initial_state, mermaid_word, pre_run, pre_step,
    preprocess_spec, FenceState, HeadingView, PreState,
};
use crate::text::{contains, eol_back, eq_ignore_case, trim_eol, ws_end};

verus! {

/// The code fence a line leaves open for the next: none, or its marker,
/// its length and whether it is a Mermaid fence.
pub open spec fn fence_step(f: Option<(char, nat, bool)>, l: Seq<char>) -> Option<(char, nat, bool)> {
    match f {
        Some((m, n, d)) => if is_closing_fence_spec(l, m, n) {
            None
        } else {
            f
        },
        None => match opening_fence_spec(l) {
            Some((m, n, lang)) => Some((m, n, eq_ignore_case(lang, mermaid_word()))),
            None => None,
        },
    }
}

/// The code fence open before line `k` of `ls` (an unclosed fence runs to
/// the end).
pub open spec fn fence_before(ls: Seq<Seq<char>>, k: int) -> Option<(char, nat, bool)>
    decreases k,
{
    if k <= 0 {
        None
    } else {
        fence_step(fence_before(ls, k - 1), ls[k - 1])
    }
}

/// Line `k` lies outside every code fence: no fence is open before it and
/// it opens none.
pub open spec fn outside_fences(ls: Seq<Seq<char>>, k: int) -> bool {
    fence_before(ls, k).is_none() && opening_fence_spec(ls[k]).is_none()
}

/// Line `k` is an ATX heading outside code fences.
pub open spec fn is_heading_line(ls: Seq<Seq<char>>, k: int) -> bool {
    outside_fences(ls, k) && parse_atx_heading_spec(ls[k]).is_some()
}

/// The outline entry of heading line `k`, the `count`-th heading (from 1).
pub open spec fn heading_entry(l: Seq<char>, count: nat) -> HeadingView {
    let (level, title, existing) = parse_atx_heading_spec(l)->0;
    HeadingView {
        id: match existing {
            Some(i) => i,
            None => auto_heading_id(count),
        },
        title,
        level,
        page_index: 0,
    }
}

/// The outline of the first `k` lines: one entry per heading line, in
/// order.
pub open spec fn outline_upto(ls: Seq<Seq<char>>, k: int) -> Seq<HeadingView>
    decreases k,
{
    if k <= 0 {
        seq![]
    } else {
        let h = outline_upto(ls, k - 1);
        if is_heading_line(ls, k - 1) {
            h.push(heading_entry(ls[k - 1], h.len() + 1))
        } else {
            h
        }
    }
}

/// Number of Mermaid fences among the first `k` lines that were opened
/// outside a fence and closed.
pub open spec fn closed_mermaid_upto(ls: Seq<Seq<char>>, k: int) -> nat
    decreases k,
{
    if k <= 0 {
        0
    } else {
        let c = closed_mermaid_upto(ls, k - 1);
        match fence_before(ls, k - 1) {
            Some((m, n, true)) => if is_closing_fence_spec(ls[k - 1], m, n) {
                c + 1
            } else {
                c
            },
            _ => c,
        }
    }
}

/// No line outside a code fence opens a Mermaid fence.
pub open spec fn no_mermaid(ls: Seq<Seq<char>>) -> bool {
    forall|k: int|
        0 <= k < ls.len() && fence_before(ls, k).is_none() ==> match #[trigger] opening_fence_spec(ls[k]) {
            Some((m, n, lang)) => !eq_ignore_case(lang, mermaid_word()),
            None => true,
        }
}

/// The output for line `k`: a heading line with its anchor, any other line
/// as it is.
pub open spec fn output_line(ls: Seq<Seq<char>>, k: int) -> Seq<char> {
    if is_heading_line(ls, k) {
        anchored_line(ls[k], outline_upto(ls, k + 1).last().id)
    } else {
        ls[k]
    }
}

/// The output for the first `k` lines.
pub open spec fn output_upto(ls: Seq<Seq<char>>, k: int) -> Seq<char>
    decreases k,
{
    if k <= 0 {
        seq![]
    } else {
        output_upto(ls, k - 1) + output_line(ls, k - 1)
    }
}

/// The preprocessor's state after the first `k` lines of `ls`.
pub open spec fn pre_fold(ls: Seq<Seq<char>>, k: int, st: PreState, rendered: Seq<Seq<char>>) -> PreState
    decreases k,
{
    if k <= 0 {
        st
    } else {
        pre_step(pre_fold(ls, k - 1, st, rendered), ls[k - 1], rendered)
    }
}

proof fn lemma_pre_fold_cons(
    l: Seq<char>,
    rest: Seq<Seq<char>>,
    k: int,
    st: PreState,
    rendered: Seq<Seq<char>>,
)
    requires
        0 <= k <= rest.len(),
    ensures
        pre_fold(seq![l] + rest, k + 1, st, rendered) == pre_fold(rest, k, pre_step(st, l, rendered), rendered),
    decreases k,
{
    if k > 0 {
        lemma_pre_fold_cons(l, rest, k - 1, st, rendered);
        let x = seq![l] + rest;
        assert(x[k] == rest[k - 1]);
        assert(pre_fold(x, k + 1, st, rendered) == pre_step(pre_fold(x, k, st, rendered), x[k], rendered));
        assert(pre_fold(rest, k, pre_step(st, l, rendered), rendered) == pre_step(
            pre_fold(rest, k - 1, pre_step(st, l, rendered), rendered),
            rest[k - 1],
            rendered,
        ));
    } else {
        let x = seq![l] + rest;
        assert(x[0] == l);
        assert(pre_fold(x, 0, st, rendered) == st);
        assert(pre_fold(x, 1, st, rendered) == pre_step(pre_fold(x, 0, st, rendered), x[0], rendered));
    }
}

proof fn lemma_pre_run_fold(s: Seq<char>, i: int, st: PreState, rendered: Seq<Seq<char>>)
    requires
        0 <= i <= s.len(),
    ensures
        pre_run(s, i, st, rendered) == pre_fold(lines_from(s, i), lines_from(s, i).len() as int, st, rendered),
    decreases s.len() - i,
{
    if i < s.len() {
        lemma_line_end(s, i);
        let e = line_end(s, i);
        let l = s.subrange(i, e);
        lemma_pre_run_fold(s, e, pre_step(st, l, rendered), rendered);
        lemma_pre_fold_cons(l, lines_from(s, e), lines_from(s, e).len() as int, st, rendered);
    }
}

/// A Mermaid fence is open only after a line outside fences opened one.
proof fn lemma_mermaid_opened(ls: Seq<Seq<char>>, k: int)
    requires
        0 <= k <= ls.len(),
        fence_before(ls, k) matches Some((_, _, true)),
    ensures
        exists|j: int|
            0 <= j < k && fence_before(ls, j).is_none() && (#[trigger] opening_fence_spec(ls[j]) matches Some(
                (_, _, lang),
            ) && eq_ignore_case(lang, mermaid_word())),
    decreases k,
{
    if k > 0 {
        if fence_before(ls, k - 1).is_none() {
            assert(opening_fence_spec(ls[k - 1]) matches Some((_, _, lang)) && eq_ignore_case(lang, mermaid_word()));
        } else {
            lemma_mermaid_opened(ls, k - 1);
        }
    }
}

/// The fence of the preprocessor's state, as a fence of [`fence_before`].
pub open spec fn fence_of(f: FenceState) -> Option<(char, nat, bool)> {
    match f {
        FenceState::Closed => None,
        FenceState::Code(m, n) => Some((m, n, false)),
        FenceState::Diagram(m, n, _) => Some((m, n, true)),
    }
}

/// What the preprocessor's state holds after the first `k` lines.
pub open spec fn fold_agrees(ls: Seq<Seq<char>>, k: int, st: PreState) -> bool {
    &&& fence_of(st.fence) == fence_before(ls, k)
    &&& st.headings == outline_upto(ls, k)
    &&& st.diagrams.len() == closed_mermaid_upto(ls, k)
    &&& (forall|j: int| 0 <= j < k && fence_before(ls, j).is_none() ==> match #[trigger] opening_fence_spec(ls[j]) {
        Some((m, n, lang)) => !eq_ignore_case(lang, mermaid_word()),
        None => true,
    }) ==> st.out == output_upto(ls, k)
}

proof fn lemma_fold_agrees(ls: Seq<Seq<char>>, k: int, rendered: Seq<Seq<char>>)
    requires
        0 <= k <= ls.len(),
    ensures
        fold_agrees(ls, k, pre_fold(ls, k, initial_state(), rendered)),
    decreases k,
{
    if k > 0 {
        lemma_fold_agrees(ls, k - 1, rendered);
        let st = pre_fold(ls, k - 1, initial_state(), rendered);
        let l = ls[k - 1];
        let r = pre_step(st, l, rendered);
        assert(r == pre_fold(ls, k, initial_state(), rendered));
        if forall|j: int| 0 <= j < k && fence_before(ls, j).is_none() ==> match #[trigger] opening_fence_spec(ls[j]) {
            Some((m, n, lang)) => !eq_ignore_case(lang, mermaid_word()),
            None => true,
        } {
            assert(st.out == output_upto(ls, k - 1));
            if fence_before(ls, k - 1) matches Some((_, _, true)) {
                lemma_mermaid_opened(ls, k - 1);
                let j = choose|j: int|
                    0 <= j < k - 1 && fence_before(ls, j).is_none() && (#[trigger] opening_fence_spec(
                        ls[j],
                    ) matches Some((_, _, lang)) && eq_ignore_case(lang, mermaid_word()));
                assert(match opening_fence_spec(ls[j]) {
                    Some((m, n, lang)) => !eq_ignore_case(lang, mermaid_word()),
                    None => true,
                });
            }
            if fence_before(ls, k - 1).is_none() {
                assert(match opening_fence_spec(ls[k - 1]) {
                    Some((m, n, lang)) => !eq_ignore_case(lang, mermaid_word()),
                    None => true,
                });
            }
        }
    }
}

/// Every `'\r'` of `s` is directly followed by `'\n'`.
pub open spec fn cr_before_lf(s: Seq<char>) -> bool {
    forall|j: int| 0 <= j < s.len() && #[trigger] s[j] == '\r' ==> j + 1 < s.len() && s[j + 1] == '\n'
}

/// `'\n'` occurs in `l` at most as its last char.
pub open spec fn lf_only_at_end(l: Seq<char>) -> bool {
    forall|j: int| 0 <= j < l.len() - 1 ==> #[trigger] l[j] != '\n'
}

/// The lines of `s`, joined again.
pub open spec fn joined(ls: Seq<Seq<char>>, k: int) -> Seq<char>
    decreases k,
{
    if k <= 0 {
        seq![]
    } else {
        joined(ls, k - 1) + ls[k - 1]
    }
}

proof fn lemma_joined_cons(l: Seq<char>, rest: Seq<Seq<char>>, k: int)
    requires
        0 <= k <= rest.len(),
    ensures
        joined(seq![l] + rest, k + 1) == l + joined(rest, k),
    decreases k,
{
    let x = seq![l] + rest;
    if k > 0 {
        lemma_joined_cons(l, rest, k - 1);
        assert(x[k] == rest[k - 1]);
        assert(joined(x, k + 1) == joined(x, k) + x[k]);
        assert(l + joined(rest, k) =~= l + joined(rest, k - 1) + rest[k - 1]);
    } else {
        assert(x[0] == l);
        assert(joined(x, 0) == Seq::<char>::empty());
        assert(joined(rest, 0) == Seq::<char>::empty());
        assert(joined(x, 1) =~= l);
        assert(l + joined(rest, 0) =~= l);
    }
}

/// The lines of `s` from `i` on give back the text from `i` on, and each
/// holds `'\n'` only at its end and keeps `'\r'` before `'\n'`.
pub proof fn lemma_lines_from(s: Seq<char>, i: int)
    requires
        0 <= i <= s.len(),
    ensures
        joined(lines_from(s, i), lines_from(s, i).len() as int) == s.subrange(i, s.len() as int),
        forall|k: int| 0 <= k < lines_from(s, i).len() ==> (#[trigger] lines_from(s, i)[k]).len() > 0,
        forall|k: int|
            0 <= k < lines_from(s, i).len() - 1 ==> (#[trigger] lines_from(s, i)[k]).last() == '\n',
        forall|k: int| 0 <= k < lines_from(s, i).len() ==> lf_only_at_end(#[trigger] lines_from(s, i)[k]),
        cr_before_lf(s) ==> forall|k: int|
            0 <= k < lines_from(s, i).len() ==> cr_before_lf(#[trigger] lines_from(s, i)[k]),
    decreases s.len() - i,
{
    if i < s.len() {
        lemma_line_end(s, i);
        lemma_newline_from(s, i);
        let e = line_end(s, i);
        let l = s.subrange(i, e);
        let rest = lines_from(s, e);
        lemma_lines_from(s, e);
        lemma_joined_cons(l, rest, rest.len() as int);
        assert(lines_from(s, i) == seq![l] + rest);
        assert(s.subrange(i, s.len() as int) =~= l + s.subrange(e, s.len() as int));
        assert(lf_only_at_end(l)) by {
            assert forall|j: int| 0 <= j < l.len() - 1 implies #[trigger] l[j] != '\n' by {
                assert(l[j] == s[i + j]);
            }
        }
        if cr_before_lf(s) {
            assert forall|j: int| 0 <= j < l.len() && #[trigger] l[j] == '\r' implies j + 1 < l.len()
                && l[j + 1] == '\n' by {
                assert(l[j] == s[i + j]);
                assert(s[i + j + 1] == '\n');
            }
        }
        assert forall|k: int| 0 <= k < lines_from(s, i).len() implies lf_only_at_end(
            #[trigger] lines_from(s, i)[k],
        ) && lines_from(s, i)[k].len() > 0 && (k < lines_from(s, i).len() - 1
            ==> lines_from(s, i)[k].last() == '\n') by {
            if k > 0 {
                assert(lines_from(s, i)[k] == rest[k - 1]);
            } else if k < lines_from(s, i).len() - 1 {
                assert(rest.len() > 0);
                assert(e < s.len());
                assert(newline_from(s, i) < s.len());
            }
        }
        if cr_before_lf(s) {
            assert forall|k: int| 0 <= k < lines_from(s, i).len() implies cr_before_lf(
                #[trigger] lines_from(s, i)[k],
            ) by {
                if k > 0 {
                    assert(lines_from(s, i)[k] == rest[k - 1]);
                }
            }
        }
    } else {
        assert(s.subrange(i, s.len() as int) =~= Seq::<char>::empty());
    }
}

/// A heading line with ` {#id}` put right before its line ending.
pub open spec fn with_anchor(l: Seq<char>, id: Seq<char>) -> Seq<char> {
    let b = trim_eol(l).len() as int;
    l.take(b) + seq![' ', '{', '#'] + id + seq!['}'] + l.skip(b)
}

/// When `'\r'` comes only before `'\n'`, anchoring a line puts ` {#id}`
/// right before its line ending and changes nothing else.
proof fn lemma_anchored_inserts(l: Seq<char>, id: Seq<char>)
    requires
        lf_only_at_end(l),
        cr_before_lf(l),
    ensures
        anchored_line(l, id) == if contains(trim_eol(l), seq!['{', '#']) {
            l
        } else {
            with_anchor(l, id)
        },
{
    let n = l.len() as int;
    let b = eol_back(l, n);
    if n >= 1 && l[n - 1] == '\n' {
        if n >= 2 && l[n - 2] == '\r' {
            assert(eol_back(l, n) == eol_back(l, n - 1));
            assert(eol_back(l, n - 1) == eol_back(l, n - 2));
            if n >= 3 {
                assert(l[n - 3] != '\n');
                assert(l[n - 3] != '\r');
            }
            assert(b == n - 2);
            assert(l.skip(b) =~= seq!['\r', '\n']);
        } else {
            assert(eol_back(l, n) == eol_back(l, n - 1));
            if n >= 2 {
                assert(l[n - 2] != '\n');
            }
            assert(b == n - 1);
            assert(l.skip(b) =~= seq!['\n']);
        }
    } else {
        if n >= 1 {
            assert(l[n - 1] != '\r');
        }
        assert(b == n);
        assert(l.skip(b) =~= Seq::<char>::empty());
    }
    assert(trim_eol(l) =~= l.take(b));
}

/// The outline of a preprocessed document lists one entry per ATX heading
/// line outside code fences, in source order, the `k`-th with its explicit
/// id or `mdreader-heading-k`; the number of diagrams is the number of
/// Mermaid fences opened outside a fence and closed.
pub proof fn lemma_preprocess_outline_lines(s: Seq<char>, rendered: Seq<Seq<char>>)
    ensures
        preprocess_spec(s, rendered).1 == outline_upto(
            lines_from(s, 0),
            lines_from(s, 0).len() as int,
        ),
        preprocess_spec(s, rendered).2 == closed_mermaid_upto(
            lines_from(s, 0),
            lines_from(s, 0).len() as int,
        ),
{
    let ls = lines_from(s, 0);
    lemma_pre_run_fold(s, 0, initial_state(), rendered);
    lemma_fold_agrees(ls, ls.len() as int, rendered);
}

/// Without Mermaid fences, the preprocessed text is the source with an
/// anchor added to each heading line outside code fences: when `'\r'`
/// comes only before `'\n'`, ` {#id}` goes right before the line ending of
/// each such line that does not already hold `{#`, and nothing else
/// changes.  A source without such heading lines comes back unchanged,
/// with an empty outline.
pub proof fn lemma_preprocess_output(s: Seq<char>, rendered: Seq<Seq<char>>)
    requires
        no_mermaid(lines_from(s, 0)),
    ensures
        preprocess_spec(s, rendered).0 == output_upto(lines_from(s, 0), lines_from(s, 0).len() as int),
        cr_before_lf(s) ==> forall|k: int|
            0 <= k < lines_from(s, 0).len() ==> #[trigger] output_line(lines_from(s, 0), k) == if is_heading_line(
                lines_from(s, 0),
                k,
            ) && !contains(trim_eol(lines_from(s, 0)[k]), seq!['{', '#']) {
                with_anchor(lines_from(s, 0)[k], outline_upto(lines_from(s, 0), k + 1).last().id)
            } else {
                lines_from(s, 0)[k]
            },
        (forall|k: int| 0 <= k < lines_from(s, 0).len() ==> !#[trigger] is_heading_line(lines_from(s, 0), k))
            ==> preprocess_spec(s, rendered).0 == s && preprocess_spec(s, rendered).1.len() == 0,
{
    let ls = lines_from(s, 0);
    let n = ls.len() as int;
    lemma_pre_run_fold(s, 0, initial_state(), rendered);
    lemma_fold_agrees(ls, n, rendered);
    let st = pre_run(s, 0, initial_state(), rendered);
    lemma_mermaid_free_fence(ls, n);
    assert(finished_output(st) == st.out);
    lemma_lines_from(s, 0);
    if cr_before_lf(s) {
        assert forall|k: int| 0 <= k < n implies #[trigger] output_line(ls, k) == if is_heading_line(ls, k)
            && !contains(trim_eol(ls[k]), seq!['{', '#']) {
            with_anchor(ls[k], outline_upto(ls, k + 1).last().id)
        } else {
            ls[k]
        } by {
            lemma_anchored_inserts(ls[k], outline_upto(ls, k + 1).last().id);
        }
    }
    if forall|k: int| 0 <= k < n ==> !#[trigger] is_heading_line(ls, k) {
        lemma_plain_output(ls, n);
        assert(s.subrange(0, s.len() as int) =~= s);
    }
}

proof fn lemma_mermaid_free_fence(ls: Seq<Seq<char>>, k: int)
    requires
        0 <= k <= ls.len(),
        no_mermaid(ls),
    ensures
        !(fence_before(ls, k) matches Some((_, _, true))),
{
    if fence_before(ls, k) matches Some((_, _, true)) {
        lemma_mermaid_opened(ls, k);
        let j = choose|j: int|
            0 <= j < k && fence_before(ls, j).is_none() && (#[trigger] opening_fence_spec(ls[j]) matches Some(
                (_, _, lang),
            ) && eq_ignore_case(lang, mermaid_word()));
        assert(match opening_fence_spec(ls[j]) {
            Some((m, n, lang)) => !eq_ignore_case(lang, mermaid_word()),
            None => true,
        });
    }
}

proof fn lemma_plain_output(ls: Seq<Seq<char>>, k: int)
    requires
        0 <= k <= ls.len(),
        forall|j: int| 0 <= j < ls.len() ==> !#[trigger] is_heading_line(ls, j),
    ensures
        output_upto(ls, k) == joined(ls, k),
        outline_upto(ls, k).len() == 0,
    decreases k,
{
    if k > 0 {
        lemma_plain_output(ls, k - 1);
        assert(!is_heading_line(ls, k - 1));
    }
}

proof fn lemma_newline_at(s: Seq<char>, i: int, j: int)
    requires
        0 <= i <= j <= s.len(),
        forall|m: int| i <= m < j ==> #[trigger] s[m] != '\n',
        j == s.len() || s[j] == '\n',
    ensures
        newline_from(s, i) == j,
    decreases j - i,
{
    if i < j {
        lemma_newline_at(s, i + 1, j);
    }
}

proof fn lemma_joined_prefix(xs: Seq<Seq<char>>, m: int, n: int)
    requires
        0 <= m <= n <= xs.len(),
    ensures
        joined(xs, m).len() <= joined(xs, n).len(),
        joined(xs, n).subrange(0, joined(xs, m).len() as int) == joined(xs, m),
    decreases n - m,
{
    if m < n {
        lemma_joined_prefix(xs, m, n - 1);
        let a = joined(xs, n - 1);
        assert(joined(xs, n) == a + xs[n - 1]);
        assert(joined(xs, n).subrange(0, joined(xs, m).len() as int) =~= a.subrange(
            0,
            joined(xs, m).len() as int,
        ));
    } else {
        assert(joined(xs, n).subrange(0, joined(xs, n).len() as int) =~= joined(xs, n));
    }
}

/// Texts that each hold `'\n'` at most at their end, all but the last
/// ending with one, are the lines of their joined text.
proof fn lemma_lines_of_joined(xs: Seq<Seq<char>>, k: int)
    requires
        0 <= k <= xs.len(),
        forall|j: int| 0 <= j < xs.len() ==> (#[trigger] xs[j]).len() > 0 && lf_only_at_end(xs[j]),
        forall|j: int| 0 <= j < xs.len() - 1 ==> (#[trigger] xs[j]).last() == '\n',
    ensures
        lines_from(joined(xs, xs.len() as int), joined(xs, k).len() as int) == xs.skip(k),
    decreases xs.len() - k,
{
    let n = xs.len() as int;
    let s = joined(xs, n);
    let i = joined(xs, k).len() as int;
    lemma_joined_prefix(xs, k, n);
    if k < n {
        lemma_joined_prefix(xs, k + 1, n);
        let x = xs[k];
        let e = i + x.len();
        assert(joined(xs, k + 1) == joined(xs, k) + x);
        assert(joined(xs, k + 1).len() == e);
        assert forall|m: int| 0 <= m < x.len() implies #[trigger] s[i + m] == x[m] by {
            assert(s.subrange(0, e)[i + m] == joined(xs, k + 1)[i + m]);
        }
        assert forall|m: int| 0 <= m < x.len() implies #[trigger] s.subrange(i, e)[m] == x[m] by {
            assert(s[i + m] == x[m]);
        }
        if x.last() == '\n' {
            assert forall|m: int| i <= m < e - 1 implies #[trigger] s[m] != '\n' by {
                assert(s[i + (m - i)] == x[m - i]);
            }
            assert(s[i + (x.len() - 1)] == x[x.len() - 1]);
            lemma_newline_at(s, i, e - 1);
        } else {
            assert(k == n - 1);
            assert(joined(xs, n).len() == e);
            assert forall|m: int| i <= m < e implies #[trigger] s[m] != '\n' by {
                assert(s[i + (m - i)] == x[m - i]);
            }
            lemma_newline_at(s, i, e);
        }
        assert(line_end(s, i) == e);
        assert(s.subrange(i, e) =~= x);
        lemma_lines_of_joined(xs, k + 1);
        assert(xs.skip(k) =~= seq![x] + xs.skip(k + 1));
    } else {
        assert(xs.skip(k) =~= Seq::<Seq<char>>::empty());
    }
}

/// The output lines, one per source line.
pub open spec fn output_lines(ls: Seq<Seq<char>>) -> Seq<Seq<char>> {
    Seq::new(ls.len(), |k: int| output_line(ls, k))
}

proof fn lemma_output_joined(ls: Seq<Seq<char>>, k: int)
    requires
        0 <= k <= ls.len(),
    ensures
        output_upto(ls, k) == joined(output_lines(ls), k),
    decreases k,
{
    if k > 0 {
        lemma_output_joined(ls, k - 1);
    }
}

/// The id a heading line carries in the outline.
pub open spec fn line_id(ls: Seq<Seq<char>>, k: int) -> Seq<char> {
    outline_upto(ls, k + 1).last().id
}

/// Every heading line outside fences whose text holds `{#` reads with an
/// explicit id.
pub open spec fn explicit_ids_read(ls: Seq<Seq<char>>) -> bool {
    forall|k: int|
        0 <= k < ls.len() && #[trigger] is_heading_line(ls, k) && contains(trim_eol(ls[k]), seq!['{', '#'])
            ==> parse_atx_heading_spec(ls[k]) matches Some((_, _, Some(_)))
}

/// The output line of a heading line that gets an anchor carries a plain
/// made-up id.
proof fn lemma_inserted_id(ls: Seq<Seq<char>>, k: int)
    requires
        0 <= k < ls.len(),
        is_heading_line(ls, k),
        !contains(trim_eol(ls[k]), seq!['{', '#']),
    ensures
        plain_id(line_id(ls, k)),
        line_id(ls, k) == auto_heading_id(outline_upto(ls, k).len() + 1),
{
    if parse_atx_heading_spec(ls[k]) matches Some((_, _, Some(_))) {
        lemma_existing_id_in_body(ls[k]);
    }
    assert(outline_upto(ls, k + 1) == outline_upto(ls, k).push(
        heading_entry(ls[k], outline_upto(ls, k).len() + 1),
    ));
    lemma_auto_id_plain(outline_upto(ls, k).len() + 1);
}

proof fn lemma_anchored_shape(l: Seq<char>, id: Seq<char>)
    requires
        l.len() > 0,
        lf_only_at_end(l),
        plain_id(id),
    ensures
        anchored_line(l, id).len() > 0,
        lf_only_at_end(anchored_line(l, id)),
        l.last() == '\n' ==> anchored_line(l, id).last() == '\n',
{
    if !contains(trim_eol(l), seq!['{', '#']) {
        let n = l.len() as int;
        lemma_eol_back(l, n);
        let b = eol_back(l, n);
        let body = trim_eol(l);
        let z = seq![' ', '{', '#'] + id + seq!['}'];
        let e = line_ending(l);
        let a = anchored_line(l, id);
        assert(a == body + z + e);
        assert(l.last() == '\n' ==> b <= n - 1);
        assert forall|j: int| 0 <= j < a.len() - 1 implies #[trigger] a[j] != '\n' by {
            if j < b {
                assert(a[j] == l[j]);
            } else if j < b + z.len() {
                assert(a[j] == z[j - b]);
                if 3 <= j - b < 3 + id.len() {
                    assert(z[j - b] == id[j - b - 3]);
                }
            } else {
                assert(a[j] == e[j - b - z.len()]);
            }
        }
    }
}

proof fn lemma_output_line_shape(ls: Seq<Seq<char>>, k: int)
    requires
        0 <= k < ls.len(),
        ls[k].len() > 0,
        lf_only_at_end(ls[k]),
    ensures
        output_line(ls, k).len() > 0,
        lf_only_at_end(output_line(ls, k)),
        ls[k].last() == '\n' ==> output_line(ls, k).last() == '\n',
{
    if is_heading_line(ls, k) && !contains(trim_eol(ls[k]), seq!['{', '#']) {
        lemma_inserted_id(ls, k);
        lemma_anchored_shape(ls[k], line_id(ls, k));
    }
}

proof fn lemma_output_fences(ls: Seq<Seq<char>>, k: int)
    requires
        0 <= k <= ls.len(),
    ensures
        fence_before(output_lines(ls), k) == fence_before(ls, k),
    decreases k,
{
    if k > 0 {
        lemma_output_fences(ls, k - 1);
        let j = k - 1;
        let xs = output_lines(ls);
        assert(xs[j] == output_line(ls, j));
        if is_heading_line(ls, j) && !contains(trim_eol(ls[j]), seq!['{', '#']) {
            lemma_inserted_id(ls, j);
            lemma_anchored_heading(ls[j], line_id(ls, j));
        }
    }
}

proof fn lemma_outline_entry_line(ls: Seq<Seq<char>>, n: int, h: int) -> (k: int)
    requires
        0 <= n <= ls.len(),
        0 <= h < outline_upto(ls, n).len(),
    ensures
        0 <= k < n,
        is_heading_line(ls, k),
        outline_upto(ls, k).len() == h,
        outline_upto(ls, n)[h] == outline_upto(ls, k + 1).last(),
    decreases n,
{
    let prev = outline_upto(ls, n - 1);
    if h < prev.len() {
        let k = lemma_outline_entry_line(ls, n - 1, h);
        assert(outline_upto(ls, n)[h] == prev[h]);
        k
    } else {
        n - 1
    }
}

/// A heading line's output reads as a heading with `hv`'s level and id.
pub open spec fn anchors_entry(line: Seq<char>, hv: HeadingView) -> bool {
    parse_atx_heading_spec(line) matches Some((level, _, Some(id))) && level == hv.level && id == hv.id
}

proof fn lemma_output_is_lines(s: Seq<char>, rendered: Seq<Seq<char>>)
    requires
        no_mermaid(lines_from(s, 0)),
    ensures
        lines_from(preprocess_spec(s, rendered).0, 0) == output_lines(lines_from(s, 0)),
{
    let ls = lines_from(s, 0);
    let n = ls.len() as int;
    let xs = output_lines(ls);
    lemma_preprocess_output(s, rendered);
    lemma_lines_from(s, 0);
    lemma_output_joined(ls, n);
    assert forall|j: int| 0 <= j < xs.len() implies (#[trigger] xs[j]).len() > 0 && lf_only_at_end(xs[j])
        && (j < xs.len() - 1 ==> xs[j].last() == '\n') by {
        lemma_output_line_shape(ls, j);
    }
    lemma_lines_of_joined(xs, 0);
    assert(joined(xs, 0).len() == 0);
    assert(xs.skip(0) =~= xs);
}

proof fn lemma_heading_line_anchored(ls: Seq<Seq<char>>, k: int)
    requires
        0 <= k < ls.len(),
        is_heading_line(ls, k),
        explicit_ids_read(ls),
    ensures
        outside_fences(output_lines(ls), k),
        anchors_entry(output_lines(ls)[k], outline_upto(ls, k + 1).last()),
{
    let xs = output_lines(ls);
    lemma_output_fences(ls, k);
    assert(outline_upto(ls, k + 1) == outline_upto(ls, k).push(
        heading_entry(ls[k], outline_upto(ls, k).len() + 1),
    ));
    assert(xs[k] == output_line(ls, k));
    if contains(trim_eol(ls[k]), seq!['{', '#']) {
        assert(xs[k] == ls[k]);
    } else {
        lemma_inserted_id(ls, k);
        lemma_anchored_heading(ls[k], line_id(ls, k));
    }
}

/// Every outline entry is anchored in the output: without Mermaid fences,
/// and when every heading line whose text holds `{#` reads with an explicit
/// id, the output has one line per source line, each heading line's output
/// line lies outside code fences and reads as a heading of the entry's
/// level with the entry's id, and each entry of the outline has such a
/// line, in outline order.
pub proof fn lemma_heading_ids_anchored(s: Seq<char>, rendered: Seq<Seq<char>>)
    requires
        no_mermaid(lines_from(s, 0)),
        explicit_ids_read(lines_from(s, 0)),
    ensures
        lines_from(preprocess_spec(s, rendered).0, 0) == output_lines(lines_from(s, 0)),
        forall|k: int|
            0 <= k < lines_from(s, 0).len() && #[trigger] is_heading_line(lines_from(s, 0), k) ==> outside_fences(
                lines_from(preprocess_spec(s, rendered).0, 0),
                k,
            ) && anchors_entry(
                lines_from(preprocess_spec(s, rendered).0, 0)[k],
                outline_upto(lines_from(s, 0), k + 1).last(),
            ),
        forall|h: int|
            0 <= h < preprocess_spec(s, rendered).1.len() ==> #[trigger] entry_anchored(s, rendered, h),
{
    let ls = lines_from(s, 0);
    let n = ls.len() as int;
    let xs = output_lines(ls);
    lemma_output_is_lines(s, rendered);
    lemma_preprocess_outline_lines(s, rendered);
    assert forall|k: int| 0 <= k < n && #[trigger] is_heading_line(ls, k) implies outside_fences(xs, k)
        && anchors_entry(xs[k], outline_upto(ls, k + 1).last()) by {
        lemma_heading_line_anchored(ls, k);
    }
    lemma_entries_anchored(s, rendered);
}

/// Outline entry `h` of the preprocessed `s` has a heading line, the
/// `h`-th counting from 0, whose output line reads with the entry's level
/// and id.
pub open spec fn entry_anchored(s: Seq<char>, rendered: Seq<Seq<char>>, h: int) -> bool {
    exists|k: int|
        0 <= k < lines_from(s, 0).len() && is_heading_line(lines_from(s, 0), k) && outline_upto(
            lines_from(s, 0),
            k,
        ).len() == h && #[trigger] anchors_entry(
            lines_from(preprocess_spec(s, rendered).0, 0)[k],
            preprocess_spec(s, rendered).1[h],
        )
}

proof fn lemma_entries_anchored(s: Seq<char>, rendered: Seq<Seq<char>>)
    requires
        no_mermaid(lines_from(s, 0)),
        explicit_ids_read(lines_from(s, 0)),
    ensures
        forall|h: int|
            0 <= h < preprocess_spec(s, rendered).1.len() ==> #[trigger] entry_anchored(s, rendered, h),
{
    let ls = lines_from(s, 0);
    let n = ls.len() as int;
    lemma_output_is_lines(s, rendered);
    lemma_preprocess_outline_lines(s, rendered);
    let hs = preprocess_spec(s, rendered).1;
    let ols = lines_from(preprocess_spec(s, rendered).0, 0);
    assert forall|h: int| 0 <= h < hs.len() implies #[trigger] entry_anchored(s, rendered, h) by {
        let k = lemma_outline_entry_line(ls, n, h);
        lemma_heading_line_anchored(ls, k);
        assert(anchors_entry(ols[k], hs[h]));
    }
}

/// `t` is empty or ends with `'\n'`: what follows it starts a new line.
pub open spec fn line_boundary(t: Seq<char>) -> bool {
    t.len() == 0 || t.last() == '\n'
}

/// The code fence left open at the end of `t`.
pub open spec fn text_fence(t: Seq<char>) -> Option<(char, nat, bool)> {
    fence_before(lines_from(t, 0), lines_from(t, 0).len() as int)
}

/// The code fence left open after the first `j` lines of `ls`, starting
/// inside `f`.
pub open spec fn fence_from(f: Option<(char, nat, bool)>, ls: Seq<Seq<char>>, j: int) -> Option<(char, nat, bool)>
    decreases j,
{
    if j <= 0 {
        f
    } else {
        fence_step(fence_from(f, ls, j - 1), ls[j - 1])
    }
}

proof fn lemma_fence_prefix(x: Seq<Seq<char>>, y: Seq<Seq<char>>, j: int)
    requires
        0 <= j <= x.len(),
    ensures
        fence_before(x + y, j) == fence_before(x, j),
    decreases j,
{
    if j > 0 {
        lemma_fence_prefix(x, y, j - 1);
        assert((x + y)[j - 1] == x[j - 1]);
    }
}

proof fn lemma_fence_concat(x: Seq<Seq<char>>, y: Seq<Seq<char>>, j: int)
    requires
        0 <= j <= y.len(),
    ensures
        fence_before(x + y, x.len() + j) == fence_from(fence_before(x, x.len() as int), y, j),
    decreases j,
{
    if j > 0 {
        lemma_fence_concat(x, y, j - 1);
        assert((x + y)[x.len() + j - 1] == y[j - 1]);
    } else {
        lemma_fence_prefix(x, y, x.len() as int);
    }
}

proof fn lemma_fence_from_none(y: Seq<Seq<char>>, j: int)
    requires
        0 <= j <= y.len(),
    ensures
        fence_from(None, y, j) == fence_before(y, j),
    decreases j,
{
    if j > 0 {
        lemma_fence_from_none(y, j - 1);
    }
}

proof fn lemma_newline_shift(a: Seq<char>, b: Seq<char>, j: int)
    requires
        0 <= j <= b.len(),
    ensures
        newline_from(a + b, a.len() + j) == a.len() + newline_from(b, j),
    decreases b.len() - j,
{
    if j < b.len() {
        assert((a + b)[a.len() + j] == b[j]);
        lemma_newline_shift(a, b, j + 1);
    }
}

proof fn lemma_lines_shift(a: Seq<char>, b: Seq<char>, j: int)
    requires
        0 <= j <= b.len(),
    ensures
        lines_from(a + b, a.len() + j) == lines_from(b, j),
    decreases b.len() - j,
{
    if j < b.len() {
        lemma_newline_shift(a, b, j);
        lemma_line_end(b, j);
        let e = line_end(b, j);
        assert(line_end(a + b, a.len() + j) == a.len() + e);
        assert((a + b).subrange(a.len() + j, a.len() + e) =~= b.subrange(j, e));
        lemma_lines_shift(a, b, e);
    }
}

proof fn lemma_newline_prefix(a: Seq<char>, b: Seq<char>, i: int)
    requires
        0 <= i <= a.len(),
        newline_from(a, i) < a.len(),
    ensures
        newline_from(a + b, i) == newline_from(a, i),
    decreases a.len() - i,
{
    if i < a.len() && a[i] != '\n' {
        assert((a + b)[i] == a[i]);
        lemma_newline_prefix(a, b, i + 1);
    } else if i < a.len() {
        assert((a + b)[i] == a[i]);
    }
}

proof fn lemma_lines_prefix(a: Seq<char>, b: Seq<char>, i: int)
    requires
        0 <= i <= a.len(),
        line_boundary(a),
    ensures
        lines_from(a + b, i) == lines_from(a, i) + lines_from(b, 0),
    decreases a.len() - i,
{
    if i < a.len() {
        lemma_newline_from(a, i);
        assert(newline_from(a, i) < a.len()) by {
            if newline_from(a, i) == a.len() {
                assert(a[a.len() - 1] != '\n');
            }
        }
        lemma_newline_prefix(a, b, i);
        lemma_line_end(a, i);
        let e = line_end(a, i);
        assert((a + b).subrange(i, e) =~= a.subrange(i, e));
        lemma_lines_prefix(a, b, e);
        assert(lines_from(a + b, i) == seq![a.subrange(i, e)] + lines_from(a + b, e));
        assert(lines_from(a, i) == seq![a.subrange(i, e)] + lines_from(a, e));
        assert(seq![a.subrange(i, e)] + (lines_from(a, e) + lines_from(b, 0)) =~= (seq![a.subrange(i, e)]
            + lines_from(a, e)) + lines_from(b, 0));
    } else {
        lemma_lines_shift(a, b, 0);
        assert(lines_from(a, i) =~= Seq::<Seq<char>>::empty());
        assert(lines_from(a, i) + lines_from(b, 0) =~= lines_from(b, 0));
    }
}

/// Joining a text that ends at a line boundary with another puts their
/// lines one after the other.
pub proof fn lemma_lines_concat(a: Seq<char>, b: Seq<char>)
    requires
        line_boundary(a),
    ensures
        lines_from(a + b, 0) == lines_from(a, 0) + lines_from(b, 0),
{
    lemma_lines_prefix(a, b, 0);
}

proof fn lemma_single_line(x: Seq<char>)
    requires
        x.len() > 0,
        lf_only_at_end(x),
    ensures
        lines_from(x, 0) == seq![x],
{
    let xs = seq![x];
    assert(joined(xs, 1) == joined(xs, 0) + xs[0]);
    assert(joined(xs, 1) =~= x);
    lemma_lines_of_joined(xs, 0);
    assert(xs.skip(0) =~= xs);
}

/// A rendering that ends at a line boundary and leaves no code fence open.
pub open spec fn fences_balanced(r: Seq<char>) -> bool {
    line_boundary(r) && text_fence(r).is_none()
}

/// Every rendering ends at a line boundary and leaves no code fence open.
pub open spec fn renderings_balanced(rendered: Seq<Seq<char>>) -> bool {
    forall|k: int| 0 <= k < rendered.len() ==> fences_balanced(#[trigger] rendered[k])
}

/// The code fence the output text is in while the preprocessor is in `f`:
/// a Mermaid fence writes nothing, so the output is then outside fences.
pub open spec fn out_fence(f: FenceState) -> Option<(char, nat, bool)> {
    match f {
        FenceState::Code(m, n) => Some((m, n, false)),
        _ => None,
    }
}

/// `j[h]` is the line of `ol` that anchors entry `h` of `hs`: outside code
/// fences, reading as a heading with the entry's level and id, the lines
/// in the order of the entries.
pub open spec fn anchor_lines(ol: Seq<Seq<char>>, hs: Seq<HeadingView>, j: Seq<int>) -> bool {
    &&& j.len() == hs.len()
    &&& forall|h: int|
        0 <= h < hs.len() ==> 0 <= #[trigger] j[h] < ol.len() && outside_fences(ol, j[h]) && anchors_entry(
            ol[j[h]],
            hs[h],
        )
    &&& forall|a: int, b: int| 0 <= a < b < j.len() ==> #[trigger] j[a] < #[trigger] j[b]
}

/// Each outline entry of `hs` has its own line of `out`, in outline order,
/// that lies outside code fences and reads as a heading with the entry's
/// level and id.
pub open spec fn anchored_in_order(out: Seq<char>, hs: Seq<HeadingView>) -> bool {
    exists|j: Seq<int>| #[trigger] anchor_lines(lines_from(out, 0), hs, j)
}

proof fn lemma_anchor_lines_extend(ol: Seq<Seq<char>>, y: Seq<Seq<char>>, hs: Seq<HeadingView>, j: Seq<int>)
    requires
        anchor_lines(ol, hs, j),
    ensures
        anchor_lines(ol + y, hs, j),
{
    assert forall|h: int| 0 <= h < hs.len() implies 0 <= #[trigger] j[h] < (ol + y).len() && outside_fences(
        ol + y,
        j[h],
    ) && anchors_entry((ol + y)[j[h]], hs[h]) by {
        assert((ol + y)[j[h]] == ol[j[h]]);
        lemma_fence_prefix(ol, y, j[h]);
    }
}

/// What the output holds after the first `k` lines of `ls`.
pub open spec fn out_agrees(ls: Seq<Seq<char>>, k: int, st: PreState, j: Seq<int>) -> bool {
    &&& (k < ls.len() || st.fence is Diagram) ==> line_boundary(st.out)
    &&& text_fence(st.out) == out_fence(st.fence)
    &&& anchor_lines(lines_from(st.out, 0), st.headings, j)
}

proof fn lemma_append_line(out: Seq<char>, l: Seq<char>)
    requires
        line_boundary(out),
        l.len() > 0,
        lf_only_at_end(l),
    ensures
        lines_from(out + l, 0) == lines_from(out, 0) + seq![l],
        text_fence(out + l) == fence_step(text_fence(out), l),
{
    lemma_lines_concat(out, l);
    lemma_single_line(l);
    let ol = lines_from(out, 0);
    lemma_fence_concat(ol, seq![l], 1);
    let f = fence_before(ol, ol.len() as int);
    assert(seq![l][0] == l);
    assert(fence_from(f, seq![l], 0) == f);
    assert(fence_from(f, seq![l], 1) == fence_step(f, l));
    assert((ol + seq![l]).len() == ol.len() + 1);
}

proof fn lemma_append_text(out: Seq<char>, r: Seq<char>)
    requires
        line_boundary(out),
        text_fence(out).is_none(),
        fences_balanced(r),
    ensures
        lines_from(out + r, 0) == lines_from(out, 0) + lines_from(r, 0),
        text_fence(out + r).is_none(),
        line_boundary(out + r),
{
    lemma_lines_concat(out, r);
    let ol = lines_from(out, 0);
    let rl = lines_from(r, 0);
    lemma_fence_concat(ol, rl, rl.len() as int);
    lemma_fence_from_none(rl, rl.len() as int);
    if r.len() == 0 {
        assert(out + r =~= out);
    } else {
        assert((out + r).last() == r.last());
    }
}

#[verifier::spinoff_prover]
proof fn lemma_out_step(ls: Seq<Seq<char>>, k: int, st: PreState, j: Seq<int>, rendered: Seq<Seq<char>>) -> (j2: Seq<int>)
    requires
        0 <= k < ls.len(),
        ls[k].len() > 0,
        lf_only_at_end(ls[k]),
        k < ls.len() - 1 ==> ls[k].last() == '\n',
        explicit_ids_read(ls),
        renderings_balanced(rendered),
        fence_of(st.fence) == fence_before(ls, k),
        st.headings == outline_upto(ls, k),
        out_agrees(ls, k, st, j),
    ensures
        out_agrees(ls, k + 1, pre_step(st, ls[k], rendered), j2),
{
    let l = ls[k];
    let r = pre_step(st, l, rendered);
    let ol = lines_from(st.out, 0);
    match st.fence {
        FenceState::Code(m, n) => {
            lemma_append_line(st.out, l);
            lemma_anchor_lines_extend(ol, seq![l], st.headings, j);
            j
        },
        FenceState::Diagram(m, n, src) => {
            if is_closing_fence_spec(l, m, n) {
                let x = crate::preprocess::rendered_at(rendered, st.diagrams.len() as int);
                if 0 <= st.diagrams.len() < rendered.len() {
                    assert(fences_balanced(rendered[st.diagrams.len() as int]));
                } else {
                    assert(x == Seq::<char>::empty());
                    assert(lines_from(x, 0) == Seq::<Seq<char>>::empty());
                }
                lemma_append_text(st.out, x);
                lemma_anchor_lines_extend(ol, lines_from(x, 0), st.headings, j);
            }
            j
        },
        FenceState::Closed => {
            match opening_fence_spec(l) {
                Some((m, n, lang)) => {
                    if !eq_ignore_case(lang, mermaid_word()) {
                        lemma_append_line(st.out, l);
                        lemma_anchor_lines_extend(ol, seq![l], st.headings, j);
                    }
                    j
                },
                None => {
                    if parse_atx_heading_spec(l).is_some() {
                        assert(is_heading_line(ls, k));
                        let a = output_line(ls, k);
                        assert(r.out == st.out + a);
                        assert(r.headings == outline_upto(ls, k + 1));
                        lemma_output_line_shape(ls, k);
                        lemma_heading_line_anchored(ls, k);
                        assert(output_lines(ls)[k] == a);
                        lemma_append_line(st.out, a);
                        lemma_anchor_lines_extend(ol, seq![a], st.headings, j);
                        let ol2 = ol + seq![a];
                        let j2 = j.push(ol.len() as int);
                        lemma_fence_prefix(ol, seq![a], ol.len() as int);
                        assert(ol2[ol.len() as int] == a);
                        assert(outside_fences(ol2, ol.len() as int));
                        assert(anchors_entry(ol2[ol.len() as int], r.headings[j.len() as int]));
                        assert forall|h: int| 0 <= h < r.headings.len() implies 0 <= #[trigger] j2[h]
                            < ol2.len() && outside_fences(ol2, j2[h]) && anchors_entry(
                            ol2[j2[h]],
                            r.headings[h],
                        ) by {
                            if h < j.len() {
                                assert(j2[h] == j[h]);
                                assert(r.headings[h] == st.headings[h]);
                            }
                        }
                        assert forall|x: int, y: int| 0 <= x < y < j2.len() implies #[trigger] j2[x]
                            < #[trigger] j2[y] by {
                            if y < j.len() {
                                assert(j2[x] == j[x] && j2[y] == j[y]);
                            } else {
                                assert(j2[x] == j[x]);
                            }
                        }
                        assert(anchor_lines(ol2, r.headings, j2));
                        j2
                    } else {
                        lemma_append_line(st.out, l);
                        lemma_anchor_lines_extend(ol, seq![l], st.headings, j);
                        j
                    }
                },
            }
        },
    }
}

proof fn lemma_out_fold(ls: Seq<Seq<char>>, k: int, rendered: Seq<Seq<char>>) -> (j: Seq<int>)
    requires
        0 <= k <= ls.len(),
        forall|i: int| 0 <= i < ls.len() ==> (#[trigger] ls[i]).len() > 0 && lf_only_at_end(ls[i]),
        forall|i: int| 0 <= i < ls.len() - 1 ==> (#[trigger] ls[i]).last() == '\n',
        explicit_ids_read(ls),
        renderings_balanced(rendered),
    ensures
        out_agrees(ls, k, pre_fold(ls, k, initial_state(), rendered), j),
    decreases k,
{
    if k == 0 {
        let j = Seq::<int>::empty();
        let st = initial_state();
        assert(pre_fold(ls, 0, initial_state(), rendered) == st);
        assert(lines_from(st.out, 0) == Seq::<Seq<char>>::empty());
        assert(anchor_lines(lines_from(st.out, 0), st.headings, j));
        j
    } else {
        let j0 = lemma_out_fold(ls, k - 1, rendered);
        let st = pre_fold(ls, k - 1, initial_state(), rendered);
        lemma_fold_agrees(ls, k - 1, rendered);
        assert(pre_fold(ls, k, initial_state(), rendered) == pre_step(st, ls[k - 1], rendered));
        lemma_out_step(ls, k - 1, st, j0, rendered)
    }
}

/// Every outline id is anchored in the output, Mermaid fences or not:
/// when every heading line whose text holds `{#` reads with an explicit id
/// and every rendering given ends at a line boundary and leaves no code
/// fence open, each outline entry has its own line of the output, in
/// outline order, outside code fences, that reads as a heading with the
/// entry's level and id.
pub proof fn lemma_outline_anchored(s: Seq<char>, rendered: Seq<Seq<char>>)
    requires
        explicit_ids_read(lines_from(s, 0)),
        renderings_balanced(rendered),
    ensures
        anchored_in_order(preprocess_spec(s, rendered).0, preprocess_spec(s, rendered).1),
{
    let ls = lines_from(s, 0);
    let n = ls.len() as int;
    lemma_lines_from(s, 0);
    lemma_pre_run_fold(s, 0, initial_state(), rendered);
    let j = lemma_out_fold(ls, n, rendered);
    let st = pre_run(s, 0, initial_state(), rendered);
    let out = finished_output(st);
    match st.fence {
        FenceState::Diagram(m, n2, src) => {
            let tail = Seq::new(n2, |i: int| m) + mermaid_word() + seq!['\n'] + src;
            assert(out == st.out + tail);
            lemma_lines_concat(st.out, tail);
            lemma_anchor_lines_extend(lines_from(st.out, 0), lines_from(tail, 0), st.headings, j);
        },
        _ => {},
    }
    assert(anchor_lines(lines_from(out, 0), st.headings, j));
}

/// The placeholder `mermaid_markdown` gives for a diagram is a balanced
/// rendering when the URI holds no line break: three lines, none of which
/// opens a code fence.
pub proof fn lemma_placeholder_balanced(uri: Seq<char>)
    requires
        forall|i: int| 0 <= i < uri.len() ==> #[trigger] uri[i] != '\n',
    ensures
        fences_balanced("\n<div data-mdreader-mermaid=\""@ + uri + "\"></div>\n\n"@),
{
    reveal_strlit("\n<div data-mdreader-mermaid=\"");
    reveal_strlit("\"></div>\n\n");
    let a = "\n<div data-mdreader-mermaid=\""@;
    let b = "\"></div>\n\n"@;
    let t = a + uri + b;
    let x0 = seq!['\n'];
    let x1 = a.skip(1) + uri + b.take(b.len() - 1);
    let x2 = seq!['\n'];
    let xs = seq![x0, x1, x2];
    assert(joined(xs, 0) == Seq::<char>::empty());
    assert(xs[0] == x0 && xs[1] == x1 && xs[2] == x2);
    assert(joined(xs, 1) =~= x0);
    assert(joined(xs, 2) =~= x0 + x1);
    assert(joined(xs, 3) =~= t);
    assert(lf_only_at_end(x1)) by {
        assert forall|j: int| 0 <= j < x1.len() - 1 implies #[trigger] x1[j] != '\n' by {
            if j < a.len() - 1 {
                assert(x1[j] == a[j + 1]);
            } else if j < a.len() - 1 + uri.len() {
                assert(x1[j] == uri[j - (a.len() - 1)]);
            } else {
                assert(x1[j] == b[j - (a.len() - 1) - uri.len()]);
            }
        }
    }
    assert(x1.last() == '\n');
    assert forall|j: int| 0 <= j < xs.len() implies (#[trigger] xs[j]).len() > 0 && lf_only_at_end(xs[j]) by {
    }
    lemma_lines_of_joined(xs, 0);
    assert(joined(xs, 0).len() == 0);
    assert(xs.skip(0) =~= xs);
    assert(lines_from(t, 0) == xs);
    assert(crate::text::is_ws('\n'));
    assert(ws_end(x0, 1) == 1);
    assert(ws_end(x0, 0) == 1);
    assert(opening_fence_spec(x0).is_none());
    assert(x1[0] == '<');
    assert(ws_end(x1, 0) == 0);
    assert(opening_fence_spec(x1).is_none());
    assert(fence_before(xs, 0).is_none());
    assert(fence_before(xs, 1) == fence_step(fence_before(xs, 0), xs[0]));
    assert(fence_before(xs, 1).is_none());
    assert(fence_before(xs, 2) == fence_step(fence_before(xs, 1), xs[1]));
    assert(ws_end(x2, 1) == 1);
    assert(ws_end(x2, 0) == 1);
    assert(opening_fence_spec(x2).is_none());
    assert(fence_before(xs, 3) == fence_step(fence_before(xs, 2), xs[2]));
    assert(fence_before(xs, 2).is_none());
    assert(fence_before(xs, 3).is_none());
}

} // verus!
