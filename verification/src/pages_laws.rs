//! The page rule stated page by page: each page is the shortest run of
//! lines, from where the previous page ended, that holds at least
//! [`TARGET_PAGE_LINES`] lines, ends with a blank line and ends outside any
//! code fence; only the last page may instead be what is left.

use vstd::prelude::*;
use crate::lines::{lemma_line_end, line_end, lines_from};
use crate::markdown::{is_closing_fence_spec, opening_fence_spec};
use crate::pages::{initial_pages, page_run, page_step, split_pages_spec, PageState, TARGET_PAGE_LINES};
use crate::preprocess_laws::{fence_before, lemma_lines_from};
use crate::text::all_ws;

verus! {

/// The code fence open before line `k` (an unclosed fence runs to the
/// end; the fence state carries over from page to page).
pub open spec fn page_fence(ls: Seq<Seq<char>>, k: int) -> Option<(char, nat)> {
    match fence_before(ls, k) {
        Some((m, n, _)) => Some((m, n)),
        None => None,
    }
}

/// The text of lines `a` up to `k` (not included).
pub open spec fn lines_text(ls: Seq<Seq<char>>, a: int, k: int) -> Seq<char>
    decreases k - a,
{
    if k <= a {
        seq![]
    } else {
        lines_text(ls, a, k - 1) + ls[k - 1]
    }
}

/// Lines `a` up to `m` may form a page: at least [`TARGET_PAGE_LINES`]
/// lines, the last one blank, and no code fence open after it.
pub open spec fn closes_page(ls: Seq<Seq<char>>, a: int, m: int) -> bool {
    &&& 0 <= a < m <= ls.len()
    &&& m - a >= TARGET_PAGE_LINES
    &&& all_ws(ls[m - 1])
    &&& page_fence(ls, m).is_none()
}

/// No run of lines from `a` that ends at or before `m` may form a page.
pub open spec fn no_page_until(ls: Seq<Seq<char>>, a: int, m: int) -> bool {
    forall|x: int| a < x <= m ==> !#[trigger] closes_page(ls, a, x)
}

/// Lines `a` up to `m` are the shortest run from `a` that may form a page.
pub open spec fn shortest_page(ls: Seq<Seq<char>>, a: int, m: int) -> bool {
    closes_page(ls, a, m) && no_page_until(ls, a, m - 1)
}

/// `c` lists where the pages of `ls` start, and the end: every page but
/// the last is the shortest run that may form a page, and the last is
/// that too or all that is left when no run may.
pub open spec fn page_bounds(ls: Seq<Seq<char>>, c: Seq<int>) -> bool {
    &&& c.len() >= 2
    &&& c[0] == 0
    &&& c.last() == ls.len()
    &&& forall|p: int| 0 <= p < c.len() - 1 ==> #[trigger] c[p] < c[p + 1]
    &&& forall|p: int| 0 <= p < c.len() - 2 ==> #[trigger] shortest_page(ls, c[p], c[p + 1])
    &&& shortest_page(ls, c[c.len() - 2], c.last()) || no_page_until(ls, c[c.len() - 2], c.last())
}

pub open spec fn page_fold(ls: Seq<Seq<char>>, k: int, st: PageState) -> PageState
    decreases k,
{
    if k <= 0 {
        st
    } else {
        page_step(page_fold(ls, k - 1, st), ls[k - 1])
    }
}

proof fn lemma_page_fold_cons(l: Seq<char>, rest: Seq<Seq<char>>, k: int, st: PageState)
    requires
        0 <= k <= rest.len(),
    ensures
        page_fold(seq![l] + rest, k + 1, st) == page_fold(rest, k, page_step(st, l)),
    decreases k,
{
    let x = seq![l] + rest;
    if k > 0 {
        lemma_page_fold_cons(l, rest, k - 1, st);
        assert(x[k] == rest[k - 1]);
        assert(page_fold(x, k + 1, st) == page_step(page_fold(x, k, st), x[k]));
        assert(page_fold(rest, k, page_step(st, l)) == page_step(
            page_fold(rest, k - 1, page_step(st, l)),
            rest[k - 1],
        ));
    } else {
        assert(x[0] == l);
        assert(page_fold(x, 0, st) == st);
        assert(page_fold(x, 1, st) == page_step(page_fold(x, 0, st), x[0]));
    }
}

proof fn lemma_page_run_fold(s: Seq<char>, i: int, st: PageState)
    requires
        0 <= i <= s.len(),
    ensures
        page_run(s, i, st) == page_fold(lines_from(s, i), lines_from(s, i).len() as int, st),
    decreases s.len() - i,
{
    if i < s.len() {
        lemma_line_end(s, i);
        let e = line_end(s, i);
        let l = s.subrange(i, e);
        lemma_page_run_fold(s, e, page_step(st, l));
        lemma_page_fold_cons(l, lines_from(s, e), lines_from(s, e).len() as int, st);
    }
}

/// What the page splitter's state holds after the first `k` lines, with
/// the page starts `c` found so far.
pub open spec fn fold_pages(ls: Seq<Seq<char>>, k: int, st: PageState, c: Seq<int>) -> bool {
    let a = c.last();
    &&& c.len() >= 1
    &&& c[0] == 0
    &&& 0 <= a <= k
    &&& forall|p: int| 0 <= p < c.len() - 1 ==> #[trigger] c[p] < c[p + 1]
    &&& st.pages.len() == c.len() - 1
    &&& forall|p: int|
        0 <= p < c.len() - 1 ==> #[trigger] st.pages[p] == lines_text(ls, c[p], c[p + 1])
            && shortest_page(ls, c[p], c[p + 1])
    &&& st.current == lines_text(ls, a, k)
    &&& st.lines == k - a
    &&& st.fence == page_fence(ls, k)
    &&& no_page_until(ls, a, k)
}

proof fn lemma_fold_pages_intro(ls: Seq<Seq<char>>, k: int, st: PageState, c: Seq<int>)
    requires
        c.len() >= 1,
        c[0] == 0,
        0 <= c.last() <= k,
        forall|p: int| 0 <= p < c.len() - 1 ==> #[trigger] c[p] < c[p + 1],
        st.pages.len() == c.len() - 1,
        forall|p: int|
            0 <= p < c.len() - 1 ==> #[trigger] st.pages[p] == lines_text(ls, c[p], c[p + 1])
                && shortest_page(ls, c[p], c[p + 1]),
        st.current == lines_text(ls, c.last(), k),
        st.lines == k - c.last(),
        st.fence == page_fence(ls, k),
        no_page_until(ls, c.last(), k),
    ensures
        fold_pages(ls, k, st, c),
{
}

proof fn lemma_fold_pages_step(ls: Seq<Seq<char>>, k: int, st: PageState, c0: Seq<int>) -> (c: Seq<int>)
    requires
        1 <= k <= ls.len(),
        fold_pages(ls, k - 1, st, c0),
    ensures
        fold_pages(ls, k, page_step(st, ls[k - 1]), c),
{
    let l = ls[k - 1];
    let r = page_step(st, l);
    let a = c0.last();
    assert(r.fence == page_fence(ls, k));
    assert(lines_text(ls, a, k) == lines_text(ls, a, k - 1) + ls[k - 1]);
    if r.pages.len() > st.pages.len() {
        let c = c0.push(k);
        assert(closes_page(ls, a, k));
        assert(r.pages == st.pages.push(lines_text(ls, a, k)));
        assert forall|p: int| 0 <= p < c.len() - 1 implies #[trigger] r.pages[p] == lines_text(
            ls,
            c[p],
            c[p + 1],
        ) && shortest_page(ls, c[p], c[p + 1]) by {
            if p < c0.len() - 1 {
                assert(r.pages[p] == st.pages[p]);
                assert(c[p] == c0[p] && c[p + 1] == c0[p + 1]);
            } else {
                assert(c[p] == a && c[p + 1] == k);
            }
        }
        assert forall|p: int| 0 <= p < c.len() - 1 implies #[trigger] c[p] < c[p + 1] by {
            if p < c0.len() - 1 {
                assert(c[p] == c0[p] && c[p + 1] == c0[p + 1]);
            }
        }
        assert(lines_text(ls, k, k) == Seq::<char>::empty());
        assert(r.current == lines_text(ls, k, k));
        lemma_fold_pages_intro(ls, k, r, c);
        c
    } else {
        assert(!closes_page(ls, a, k));
        assert(r.pages == st.pages);
        lemma_fold_pages_intro(ls, k, r, c0);
        c0
    }
}

proof fn lemma_fold_pages(ls: Seq<Seq<char>>, k: int) -> (c: Seq<int>)
    requires
        0 <= k <= ls.len(),
    ensures
        fold_pages(ls, k, page_fold(ls, k, initial_pages()), c),
    decreases k,
{
    if k == 0 {
        let c = seq![0int];
        assert(page_fold(ls, 0, initial_pages()) == initial_pages());
        assert(lines_text(ls, 0, 0) == Seq::<char>::empty());
        lemma_fold_pages_intro(ls, 0, initial_pages(), c);
        c
    } else {
        let c0 = lemma_fold_pages(ls, k - 1);
        let st = page_fold(ls, k - 1, initial_pages());
        assert(page_step(st, ls[k - 1]) == page_fold(ls, k, initial_pages()));
        lemma_fold_pages_step(ls, k, st, c0)
    }
}

/// Splitting into pages follows the page rule: an empty text forms one
/// empty page, and the pages of any other text are the runs of its lines
/// (split after each `'\n'`) between page starts that [`page_bounds`]
/// describes.
pub proof fn lemma_pages_are_shortest(s: Seq<char>)
    ensures
        s.len() == 0 ==> split_pages_spec(s) == seq![Seq::<char>::empty()],
        s.len() > 0 ==> exists|c: Seq<int>|
            #[trigger] page_bounds(lines_from(s, 0), c) && split_pages_spec(s).len() == c.len() - 1 && forall|p: int|
                0 <= p < c.len() - 1 ==> #[trigger] split_pages_spec(s)[p] == lines_text(
                    lines_from(s, 0),
                    c[p],
                    c[p + 1],
                ),
{
    let ls = lines_from(s, 0);
    let n = ls.len() as int;
    lemma_page_run_fold(s, 0, initial_pages());
    let c0 = lemma_fold_pages(ls, n);
    let st = page_run(s, 0, initial_pages());
    lemma_lines_from(s, 0);
    let a = c0.last();
    let r = split_pages_spec(s);
    if s.len() == 0 {
        assert(ls.len() == 0);
        assert(r =~= seq![Seq::<char>::empty()]);
    } else {
        assert(n > 0);
        if a < n {
            assert(st.current.len() > 0) by {
                lemma_lines_text_len(ls, a, n);
            }
            let c = c0.push(n);
            assert(r == st.pages.push(st.current));
            assert forall|p: int| 0 <= p < c.len() - 1 implies #[trigger] r[p] == lines_text(ls, c[p], c[p + 1]) by {
                if p < c0.len() - 1 {
                    assert(c[p] == c0[p] && c[p + 1] == c0[p + 1]);
                }
            }
            assert forall|p: int| 0 <= p < c.len() - 1 implies #[trigger] c[p] < c[p + 1] by {
                if p < c0.len() - 1 {
                    assert(c[p] == c0[p] && c[p + 1] == c0[p + 1]);
                }
            }
            assert forall|p: int| 0 <= p < c.len() - 2 implies #[trigger] shortest_page(ls, c[p], c[p + 1]) by {
                assert(c[p] == c0[p] && c[p + 1] == c0[p + 1]);
                assert(st.pages[p] == lines_text(ls, c0[p], c0[p + 1]));
            }
            assert(c[c.len() - 2] == a);
            assert(page_bounds(ls, c));
        } else {
            assert(a == n);
            assert(c0.len() >= 2) by {
                if c0.len() == 1 {
                    assert(c0[0] == 0);
                }
            }
            assert(st.current == lines_text(ls, n, n));
            assert(st.current.len() == 0);
            assert(r == st.pages);
            let l = c0.len() as int;
            assert(st.pages[l - 2] == lines_text(ls, c0[l - 2], c0[l - 1]));
            assert(shortest_page(ls, c0[l - 2], c0[l - 1]));
            assert forall|p: int| 0 <= p < c0.len() - 2 implies #[trigger] shortest_page(ls, c0[p], c0[p + 1]) by {
                assert(st.pages[p] == lines_text(ls, c0[p], c0[p + 1]));
            }
            assert(page_bounds(ls, c0));
        }
    }
}

proof fn lemma_lines_text_len(ls: Seq<Seq<char>>, a: int, k: int)
    requires
        0 <= a < k <= ls.len(),
        forall|j: int| 0 <= j < ls.len() ==> (#[trigger] ls[j]).len() > 0,
    ensures
        lines_text(ls, a, k).len() > 0,
{
    assert(ls[k - 1].len() > 0);
}

} // verus!
