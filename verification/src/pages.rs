//! Splitting a preprocessed document into pages, placing outline entries on
//! pages, and counting what the status bar reports.

use vstd::prelude::*;
use vstd::hash_map::StringHashMap;
use crate::lines::{line_end, lemma_line_end, next_line_end};
use crate::markdown::{
    is_closing_fence_chars, is_closing_fence_spec, opening_fence_chars, opening_fence_spec,
    parse_atx_heading_chars, parse_atx_heading_spec,
};
use crate::preprocess::{
    headings_view, mermaid_diagrams_spec, preprocess_markdown, preprocess_spec, strings_view,
    Heading, HeadingView,
};
use crate::text::{all_ws, chars_of, is_blank, lower, lower_char, push_all, string_from_chars};

verus! {

/// Largest Markdown file a reader opens, in bytes.
pub const MAX_MARKDOWN_BYTES: u64 = 33554432;

/// A page ends after this many lines at the first blank line outside a code fence.
pub const TARGET_PAGE_LINES: usize = 64;

pub struct PageState {
    pub pages: Seq<Seq<char>>,
    pub current: Seq<char>,
    pub lines: nat,
    pub fence: Option<(char, nat)>,
}

pub open spec fn page_step(st: PageState, l: Seq<char>) -> PageState {
    let current = st.current + l;
    let lines = st.lines + 1;
    let fence = match st.fence {
        Some((m, n)) => if is_closing_fence_spec(l, m, n) {
            None
        } else {
            st.fence
        },
        None => match opening_fence_spec(l) {
            Some((m, n, _)) => Some((m, n)),
            None => None,
        },
    };
    if lines >= TARGET_PAGE_LINES && fence.is_none() && all_ws(l) {
        PageState { pages: st.pages.push(current), current: seq![], lines: 0, fence }
    } else {
        PageState { pages: st.pages, current, lines, fence }
    }
}

pub open spec fn page_run(s: Seq<char>, i: int, st: PageState) -> PageState
    decreases s.len() - i,
{
    if 0 <= i < s.len() {
        proof {
            lemma_line_end(s, i);
        }
        page_run(s, line_end(s, i), page_step(st, s.subrange(i, line_end(s, i))))
    } else {
        st
    }
}

pub open spec fn initial_pages() -> PageState {
    PageState { pages: seq![], current: seq![], lines: 0, fence: None }
}

/// The pages of `s`: a page closes at the first blank line outside a code
/// fence once it holds at least [`TARGET_PAGE_LINES`] lines; what is left
/// forms the last page, and an empty text forms one empty page.
pub open spec fn split_pages_spec(s: Seq<char>) -> Seq<Seq<char>> {
    let st = page_run(s, 0, initial_pages());
    if st.current.len() > 0 || st.pages.len() == 0 {
        st.pages.push(st.current)
    } else {
        st.pages
    }
}

/// The texts of `pages`, one after another.
pub open spec fn concat(pages: Seq<Seq<char>>) -> Seq<char>
    decreases pages.len(),
{
    if pages.len() == 0 {
        seq![]
    } else {
        concat(pages.drop_last()) + pages.last()
    }
}

proof fn lemma_page_run_concat(s: Seq<char>, i: int, st: PageState)
    requires
        0 <= i <= s.len(),
        forall|p: int| 0 <= p < st.pages.len() ==> #[trigger] st.pages[p].len() > 0,
    ensures
        concat(page_run(s, i, st).pages) + page_run(s, i, st).current == concat(st.pages)
            + st.current + s.subrange(i, s.len() as int),
        forall|p: int|
            0 <= p < page_run(s, i, st).pages.len() ==> #[trigger] page_run(s, i, st).pages[p].len()
                > 0,
    decreases s.len() - i,
{
    if i < s.len() {
        lemma_line_end(s, i);
        let e = line_end(s, i);
        let l = s.subrange(i, e);
        let next = page_step(st, l);
        let cur = st.current + l;
        if next.pages.len() > st.pages.len() {
            assert(next.pages.drop_last() =~= st.pages);
            assert(forall|p: int| 0 <= p < next.pages.len() ==> #[trigger] next.pages[p].len() > 0)
                by {
                assert forall|p: int| 0 <= p < next.pages.len() implies #[trigger] next.pages[p].len()
                    > 0 by {
                    if p < st.pages.len() {
                        assert(next.pages[p] == st.pages[p]);
                    } else {
                        assert(next.pages[p] == cur);
                    }
                }
            }
        }
        lemma_page_run_concat(s, e, next);
        assert(s.subrange(i, s.len() as int) =~= l + s.subrange(e, s.len() as int));
        assert(concat(next.pages) + next.current =~= concat(st.pages) + cur);
    } else {
        assert(s.subrange(i, s.len() as int) =~= seq![]);
    }
}

/// Splitting into pages loses and repeats nothing: the pages, read one
/// after another, give back the text; there is at least one page; and no
/// page of a non-empty text is empty.
pub proof fn lemma_pages_partition(s: Seq<char>)
    ensures
        concat(split_pages_spec(s)) == s,
        split_pages_spec(s).len() >= 1,
        s.len() > 0 ==> forall|p: int|
            0 <= p < split_pages_spec(s).len() ==> #[trigger] split_pages_spec(s)[p].len() > 0,
{
    let st = page_run(s, 0, initial_pages());
    lemma_page_run_concat(s, 0, initial_pages());
    assert(s.subrange(0, s.len() as int) =~= s);
    assert(concat(st.pages) + st.current =~= s);
    let r = split_pages_spec(s);
    if st.current.len() > 0 || st.pages.len() == 0 {
        assert(r.drop_last() =~= st.pages);
        if s.len() > 0 {
            assert forall|p: int| 0 <= p < r.len() implies #[trigger] r[p].len() > 0 by {
                if p < st.pages.len() {
                    assert(r[p] == st.pages[p]);
                } else if st.pages.len() == 0 {
                    assert(concat(st.pages) =~= seq![]);
                    assert(st.current =~= s);
                }
            }
        }
    } else {
        assert(st.current =~= seq![]);
        assert(concat(st.pages) =~= s);
    }
}

/// `split_markdown_pages`: the page texts of `source`.
pub fn split_markdown_pages(source: &str) -> (r: Vec<String>)
    ensures
        strings_view(r@) == split_pages_spec(source@),
{
    let chars = chars_of(source);
    let s = chars.as_slice();
    let mut pages: Vec<String> = Vec::new();
    let mut current: Vec<char> = Vec::new();
    let mut current_lines: usize = 0;
    let mut fence: Option<(char, usize)> = None;
    let mut pos: usize = 0;
    assert(strings_view(pages@) =~= seq![]);
    while pos < s.len()
        invariant
            pos <= s@.len(),
            current_lines <= pos,
            page_run(s@, 0, initial_pages()) == page_run(
                s@,
                pos as int,
                PageState {
                    pages: strings_view(pages@),
                    current: current@,
                    lines: current_lines as nat,
                    fence: match fence {
                        Some((m, n)) => Some((m, n as nat)),
                        None => None,
                    },
                },
            ),
        decreases s@.len() - pos,
    {
        let e = next_line_end(s, pos);
        let l = &s[pos..e];
        push_all(&mut current, l);
        current_lines = current_lines + 1;
        match fence {
            Some((m, n)) => {
                if is_closing_fence_chars(l, m, n) {
                    fence = None;
                }
            },
            None => {
                match opening_fence_chars(l) {
                    Some((m, n, _, _)) => {
                        fence = Some((m, n));
                    },
                    None => {},
                }
            },
        }
        if current_lines >= TARGET_PAGE_LINES && fence.is_none() && is_blank(l) {
            let ghost old_pages = pages@;
            pages.push(string_from_chars(current.as_slice()));
            assert(strings_view(pages@) =~= strings_view(old_pages).push(current@));
            current = Vec::new();
            current_lines = 0;
        }
        pos = e;
    }
    if current.len() > 0 || pages.len() == 0 {
        let ghost old_pages = pages@;
        pages.push(string_from_chars(current.as_slice()));
        assert(strings_view(pages@) =~= strings_view(old_pages).push(current@));
    }
    pages
}

/// A line as `str::lines` yields it: without its `'\n'`, and without the
/// `'\r'` before that `'\n'`.
pub open spec fn line_content(l: Seq<char>) -> Seq<char> {
    if l.len() > 0 && l.last() == '\n' {
        let a = l.drop_last();
        if a.len() > 0 && a.last() == '\r' {
            a.drop_last()
        } else {
            a
        }
    } else {
        l
    }
}

/// Records, for each explicit heading id found on the lines of `s` from `i`
/// on, that it is on page `p`.
pub open spec fn page_ids_run(s: Seq<char>, i: int, m: Map<Seq<char>, usize>, p: usize) -> Map<
    Seq<char>,
    usize,
>
    decreases s.len() - i,
{
    if 0 <= i < s.len() {
        proof {
            lemma_line_end(s, i);
        }
        let l = line_content(s.subrange(i, line_end(s, i)));
        let m2 = match parse_atx_heading_spec(l) {
            Some((_, _, Some(id))) => m.insert(id, p),
            _ => m,
        };
        page_ids_run(s, line_end(s, i), m2, p)
    } else {
        m
    }
}

/// Page of each explicit heading id in `pages`; an id found on several lines
/// is placed on the page of the last one.
pub open spec fn id_pages(pages: Seq<Seq<char>>) -> Map<Seq<char>, usize>
    decreases pages.len(),
{
    if pages.len() == 0 {
        Map::empty()
    } else {
        page_ids_run(pages.last(), 0, id_pages(pages.drop_last()), (pages.len() - 1) as usize)
    }
}

/// The outline with each entry placed on the page where its id is found,
/// and on the first page when it is found nowhere.
pub open spec fn placed_headings(hs: Seq<HeadingView>, m: Map<Seq<char>, usize>) -> Seq<HeadingView> {
    Seq::new(
        hs.len(),
        |k: int|
            HeadingView {
                page_index: if m.contains_key(hs[k].id) {
                    m[hs[k].id] as nat
                } else {
                    0
                },
                ..hs[k]
            },
    )
}

fn line_content_range(l: &[char]) -> (r: usize)
    ensures
        r <= l@.len(),
        l@.subrange(0, r as int) == line_content(l@),
{
    let n = l.len();
    if n > 0 && l[n - 1] == '\n' {
        if n > 1 && l[n - 2] == '\r' {
            assert(l@.subrange(0, n - 2) =~= line_content(l@));
            n - 2
        } else {
            assert(l@.subrange(0, n - 1) =~= line_content(l@));
            n - 1
        }
    } else {
        assert(l@.subrange(0, n as int) =~= l@);
        n
    }
}

fn record_page_ids(map: &mut StringHashMap<usize>, page: &str, p: usize)
    ensures
        final(map)@ == page_ids_run(page@, 0, old(map)@, p),
{
    let chars = chars_of(page);
    let s = chars.as_slice();
    let mut pos: usize = 0;
    while pos < s.len()
        invariant
            pos <= s@.len(),
            page_ids_run(s@, 0, old(map)@, p) == page_ids_run(s@, pos as int, map@, p),
        decreases s@.len() - pos,
    {
        let e = next_line_end(s, pos);
        let l = &s[pos..e];
        let c = line_content_range(l);
        assert(l@.subrange(0, c as int) == s@.subrange(pos as int, e as int).subrange(0, c as int));
        match parse_atx_heading_chars(&l[0..c]) {
            Some((_, _, Some(id))) => {
                map.insert(string_from_chars(id.as_slice()), p);
            },
            _ => {},
        }
        pos = e;
    }
}

/// `page_by_heading` and the placement of the outline: sets the page of
/// each heading to the page where its id stands.
pub fn assign_heading_pages(pages: &Vec<String>, headings: &mut Vec<Heading>)
    ensures
        headings_view(final(headings)@) == placed_headings(
            headings_view(old(headings)@),
            id_pages(strings_view(pages@)),
        ),
{
    let mut map: StringHashMap<usize> = StringHashMap::new();
    let mut p: usize = 0;
    while p < pages.len()
        invariant
            p <= pages@.len(),
            map@ == id_pages(strings_view(pages@).take(p as int)),
        decreases pages@.len() - p,
    {
        record_page_ids(&mut map, pages[p].as_str(), p);
        assert(strings_view(pages@).take(p + 1).drop_last() =~= strings_view(pages@).take(p as int));
        p = p + 1;
    }
    assert(strings_view(pages@).take(p as int) =~= strings_view(pages@));
    let ghost hs0 = headings_view(old(headings)@);
    let mut k: usize = 0;
    while k < headings.len()
        invariant
            k <= headings@.len(),
            headings@.len() == hs0.len(),
            forall|j: int|
                0 <= j < k ==> #[trigger] headings_view(headings@)[j] == placed_headings(hs0, map@)[j],
            forall|j: int| k <= j < headings@.len() ==> #[trigger] headings_view(headings@)[j] == hs0[j],
        decreases headings@.len() - k,
    {
        let ghost before = headings@;
        let idx = match map.get(headings[k].id.as_str()) {
            Some(v) => *v,
            None => 0,
        };
        assert(headings_view(headings@)[k as int] == hs0[k as int]);
        assert(headings@[k as int].id@ == hs0[k as int].id);
        assert(idx == (if map@.contains_key(hs0[k as int].id) { map@[hs0[k as int].id] } else { 0 }));
        let mut h = headings.remove(k);
        h.page_index = idx;
        let ghost hn = h;
        headings.insert(k, h);
        assert(headings@ =~= before.update(k as int, hn));
        assert(headings_view(headings@)[k as int] == placed_headings(hs0, map@)[k as int]);
        assert forall|j: int| 0 <= j < headings@.len() && j != k implies #[trigger] headings_view(
            headings@,
        )[j] == headings_view(before)[j] by {
            assert(headings@[j] == before[j]);
        }
        k = k + 1;
    }
    assert(headings_view(headings@) =~= placed_headings(hs0, map@));
}

proof fn lemma_page_ids_run_bound(s: Seq<char>, i: int, m: Map<Seq<char>, usize>, p: usize, n: nat)
    requires
        p < n,
        forall|k: Seq<char>| #[trigger] m.contains_key(k) ==> m[k] < n,
    ensures
        forall|k: Seq<char>|
            #[trigger] page_ids_run(s, i, m, p).contains_key(k) ==> page_ids_run(s, i, m, p)[k] < n,
    decreases s.len() - i,
{
    if 0 <= i < s.len() {
        lemma_line_end(s, i);
        let l = line_content(s.subrange(i, line_end(s, i)));
        let m2 = match parse_atx_heading_spec(l) {
            Some((_, _, Some(id))) => m.insert(id, p),
            _ => m,
        };
        assert forall|k: Seq<char>| #[trigger] m2.contains_key(k) implies m2[k] < n by {
            if m2 != m && m.contains_key(k) {
            }
        }
        lemma_page_ids_run_bound(s, line_end(s, i), m2, p, n);
        assert(page_ids_run(s, i, m, p) == page_ids_run(s, line_end(s, i), m2, p));
    }
}

proof fn lemma_id_pages_bound(pages: Seq<Seq<char>>)
    ensures
        forall|k: Seq<char>| #[trigger] id_pages(pages).contains_key(k) ==> id_pages(pages)[k] < pages.len(),
    decreases pages.len(),
{
    if pages.len() > 0 {
        lemma_id_pages_bound(pages.drop_last());
        lemma_page_ids_run_bound(
            pages.last(),
            0,
            id_pages(pages.drop_last()),
            (pages.len() - 1) as usize,
            pages.len(),
        );
    }
}

/// Every outline entry of a prepared document points at one of its pages.
pub proof fn lemma_headings_on_existing_pages(source: Seq<char>, rendered: Seq<Seq<char>>)
    ensures
        ({
            let pages = split_pages_spec(preprocess_spec(source, rendered).0);
            let hs = placed_headings(preprocess_spec(source, rendered).1, id_pages(pages));
            forall|k: int| 0 <= k < hs.len() ==> (#[trigger] hs[k]).page_index < pages.len()
        }),
{
    let pages = split_pages_spec(preprocess_spec(source, rendered).0);
    lemma_pages_partition(preprocess_spec(source, rendered).0);
    lemma_id_pages_bound(pages);
}

/// A char of the CJK ideograph blocks that the reading-time estimate counts.
pub open spec fn is_cjk(c: char) -> bool {
    ('\u{3400}' <= c && c <= '\u{9fff}') || ('\u{f900}' <= c && c <= '\u{faff}')
}

/// A char that belongs to a Latin word: ASCII letter or digit, or `_`.
pub open spec fn is_word_char(c: char) -> bool {
    ('a' <= c && c <= 'z') || ('A' <= c && c <= 'Z') || ('0' <= c && c <= '9') || c == '_'
}

pub open spec fn count_cjk(s: Seq<char>) -> nat
    decreases s.len(),
{
    if s.len() == 0 {
        0
    } else {
        count_cjk(s.drop_last()) + if is_cjk(s.last()) {
            1nat
        } else {
            0
        }
    }
}

/// Number of maximal runs of word chars.
pub open spec fn count_words(s: Seq<char>) -> nat
    decreases s.len(),
{
    if s.len() == 0 {
        0
    } else {
        count_words(s.drop_last()) + if is_word_char(s.last()) && (s.len() == 1 || !is_word_char(
            s[s.len() - 2],
        )) {
            1nat
        } else {
            0
        }
    }
}

/// Word chars are told apart regardless of ASCII case: a char belongs to
/// a Latin word exactly when, lowercased, it is a letter `a` to `z`, or it
/// is a digit or `_`.
pub proof fn lemma_word_char_any_case(c: char)
    ensures
        is_word_char(c) <==> (('a' <= lower_char(c) && lower_char(c) <= 'z') || ('0' <= c && c <= '9')
            || c == '_'),
        is_word_char(lower_char(c)) == is_word_char(c),
{
}

/// Counting Latin words ignores ASCII case: lowercasing a text leaves the
/// number of its words unchanged.
pub proof fn lemma_words_ignore_case(s: Seq<char>)
    ensures
        count_words(lower(s)) == count_words(s),
    decreases s.len(),
{
    if s.len() > 0 {
        lemma_words_ignore_case(s.drop_last());
        assert(lower(s).drop_last() =~= lower(s.drop_last()));
        lemma_word_char_any_case(s.last());
        if s.len() > 1 {
            lemma_word_char_any_case(s[s.len() - 2]);
        }
    }
}

/// Number of chars, of CJK ideographs, and of Latin words of `source`.
pub fn document_statistics(source: &str) -> (r: (usize, usize, usize))
    ensures
        r.0 == source@.len(),
        r.1 == count_cjk(source@),
        r.2 == count_words(source@),
{
    let chars = chars_of(source);
    let s = chars.as_slice();
    let mut cjk: usize = 0;
    let mut words: usize = 0;
    let mut i: usize = 0;
    while i < s.len()
        invariant
            i <= s@.len(),
            cjk == count_cjk(s@.take(i as int)),
            words == count_words(s@.take(i as int)),
            cjk <= i,
            words <= i,
        decreases s@.len() - i,
    {
        let c = s[i];
        assert(s@.take(i + 1).drop_last() =~= s@.take(i as int));
        if ('\u{3400}' <= c && c <= '\u{9fff}') || ('\u{f900}' <= c && c <= '\u{faff}') {
            cjk = cjk + 1;
        }
        let w = ('a' <= c && c <= 'z') || ('A' <= c && c <= 'Z') || ('0' <= c && c <= '9') || c
            == '_';
        if w {
            let starts = if i == 0 {
                true
            } else {
                let d = s[i - 1];
                !(('a' <= d && d <= 'z') || ('A' <= d && d <= 'Z') || ('0' <= d && d <= '9') || d
                    == '_')
            };
            if starts {
                words = words + 1;
            }
        }
        i = i + 1;
    }
    assert(s@.take(i as int) =~= s@);
    (s.len(), cjk, words)
}

/// What a document becomes for reading: its pages, its outline placed on
/// them, and its counts.
pub struct PreparedDocument {
    pub pages: Vec<String>,
    pub headings: Vec<Heading>,
    pub mermaid_count: usize,
    pub character_count: usize,
    pub cjk_count: usize,
    pub latin_words: usize,
}

/// The reading form of `source`, with `rendered_diagrams` in place of its
/// Mermaid fences (see [`preprocess_markdown`]).
pub fn prepare_document(source: &str, rendered_diagrams: &Vec<String>) -> (r: PreparedDocument)
    requires
        rendered_diagrams@.len() == mermaid_diagrams_spec(source@).len(),
    ensures
        strings_view(r.pages@) == split_pages_spec(
            preprocess_spec(source@, strings_view(rendered_diagrams@)).0,
        ),
        headings_view(r.headings@) == placed_headings(
            preprocess_spec(source@, strings_view(rendered_diagrams@)).1,
            id_pages(strings_view(r.pages@)),
        ),
        r.mermaid_count == rendered_diagrams@.len(),
        r.character_count == source@.len(),
        r.cjk_count == count_cjk(source@),
        r.latin_words == count_words(source@),
        forall|k: int| 0 <= k < r.headings@.len() ==> (#[trigger] r.headings@[k]).page_index < r.pages@.len(),
{
    let (rendered, mut headings, mermaid_count) = preprocess_markdown(source, rendered_diagrams);
    let pages = split_markdown_pages(rendered.as_str());
    assign_heading_pages(&pages, &mut headings);
    let (character_count, cjk_count, latin_words) = document_statistics(source);
    proof {
        lemma_headings_on_existing_pages(source@, strings_view(rendered_diagrams@));
        assert forall|k: int| 0 <= k < headings@.len() implies (#[trigger] headings@[k]).page_index
            < pages@.len() by {
            assert(headings_view(headings@)[k].page_index == headings@[k].page_index);
        }
    }
    PreparedDocument {
        pages,
        headings,
        mermaid_count,
        character_count,
        cjk_count,
        latin_words,
    }
}

} // verus!
