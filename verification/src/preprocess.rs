//! Markdown preprocessing: every ATX heading outside code fences gets a
//! stable `{#id}` anchor and is listed in the outline, and every closed
//! Mermaid fence is replaced by the Markdown its rendering produced.
//!
//! Rendering a diagram happens outside this crate.  A caller first asks
//! [`mermaid_diagrams`] for the sources of the closed Mermaid fences, renders
//! each, and hands the results to [`preprocess_markdown`] in the same order.

use vstd::prelude::*;
use crate::lines::{line_end, lemma_line_end, next_line_end};
use crate::markdown::{
    is_closing_fence_chars, is_closing_fence_spec, opening_fence_chars, opening_fence_spec,
    parse_atx_heading_chars, parse_atx_heading_spec,
};
use crate::text::{
    back_eol, chars_eq_ignore_case, chars_of, contains, contains_chars, decimal, eq_ignore_case,
    push_all, push_decimal, string_from_chars, trim_eol,
};

verus! {

/// One entry of a document outline.
#[derive(Clone, Debug)]
pub struct Heading {
    /// Anchor id: the explicit `{#id}` of the heading line, or
    /// `mdreader-heading-N` for the N-th heading of the document.
    pub id: String,
    pub title: String,
    /// Number of `#` chars, 1 to 6.
    pub level: usize,
    /// Page that holds the heading line once the document is split.
    pub page_index: usize,
}

pub struct HeadingView {
    pub id: Seq<char>,
    pub title: Seq<char>,
    pub level: nat,
    pub page_index: nat,
}

impl View for Heading {
    type V = HeadingView;

    open spec fn view(&self) -> HeadingView {
        HeadingView {
            id: self.id@,
            title: self.title@,
            level: self.level as nat,
            page_index: self.page_index as nat,
        }
    }
}

pub open spec fn headings_view(v: Seq<Heading>) -> Seq<HeadingView> {
    v.map_values(|h: Heading| h@)
}

/// The texts held by a sequence of `String`s.
pub open spec fn strings_view(v: Seq<String>) -> Seq<Seq<char>> {
    v.map_values(|x: String| x@)
}

/// The texts held by a sequence of char vectors.
pub open spec fn seqs_view(v: Seq<Vec<char>>) -> Seq<Seq<char>> {
    v.map_values(|x: Vec<char>| x@)
}

/// The fence the preprocessor is inside of.
pub enum FenceState {
    Closed,
    Code(char, nat),
    /// A Mermaid fence with the diagram source read so far.
    Diagram(char, nat, Seq<char>),
}

/// State of the preprocessor between lines.
pub struct PreState {
    pub out: Seq<char>,
    pub headings: Seq<HeadingView>,
    pub fence: FenceState,
    /// Sources of the Mermaid fences closed so far.
    pub diagrams: Seq<Seq<char>>,
}

pub open spec fn initial_state() -> PreState {
    PreState { out: seq![], headings: seq![], fence: FenceState::Closed, diagrams: seq![] }
}

pub open spec fn mermaid_word() -> Seq<char> {
    seq!['m', 'e', 'r', 'm', 'a', 'i', 'd']
}

pub open spec fn auto_id_prefix() -> Seq<char> {
    seq!['m', 'd', 'r', 'e', 'a', 'd', 'e', 'r', '-', 'h', 'e', 'a', 'd', 'i', 'n', 'g', '-']
}

/// Id of the `n`-th heading (counting from 1) when it has none of its own.
pub open spec fn auto_heading_id(n: nat) -> Seq<char> {
    auto_id_prefix() + decimal(n)
}

/// The rendering of the `k`-th diagram; nothing when none was given.
pub open spec fn rendered_at(rendered: Seq<Seq<char>>, k: int) -> Seq<char> {
    if 0 <= k < rendered.len() {
        rendered[k]
    } else {
        seq![]
    }
}

/// The line ending of `l`: `"\r\n"`, `"\n"` or nothing.
pub open spec fn line_ending(l: Seq<char>) -> Seq<char> {
    if l.len() >= 2 && l[l.len() - 2] == '\r' && l[l.len() - 1] == '\n' {
        seq!['\r', '\n']
    } else if l.len() >= 1 && l[l.len() - 1] == '\n' {
        seq!['\n']
    } else {
        seq![]
    }
}

/// A heading line with its anchor: kept as it is when it already holds
/// `{#`, else ` {#id}` goes between its text and its line ending.
pub open spec fn anchored_line(l: Seq<char>, id: Seq<char>) -> Seq<char> {
    let body = trim_eol(l);
    if contains(body, seq!['{', '#']) {
        l
    } else {
        body + seq![' ', '{', '#'] + id + seq!['}'] + line_ending(l)
    }
}

/// Processing of one line.
pub open spec fn pre_step(st: PreState, l: Seq<char>, rendered: Seq<Seq<char>>) -> PreState {
    match st.fence {
        FenceState::Code(m, n) => PreState {
            out: st.out + l,
            fence: if is_closing_fence_spec(l, m, n) {
                FenceState::Closed
            } else {
                st.fence
            },
            ..st
        },
        FenceState::Diagram(m, n, src) => {
            if is_closing_fence_spec(l, m, n) {
                PreState {
                    out: st.out + rendered_at(rendered, st.diagrams.len() as int),
                    fence: FenceState::Closed,
                    diagrams: st.diagrams.push(src),
                    ..st
                }
            } else {
                PreState { fence: FenceState::Diagram(m, n, src + l), ..st }
            }
        },
        FenceState::Closed => match opening_fence_spec(l) {
            Some((m, n, lang)) => {
                if eq_ignore_case(lang, mermaid_word()) {
                    PreState { fence: FenceState::Diagram(m, n, seq![]), ..st }
                } else {
                    PreState { out: st.out + l, fence: FenceState::Code(m, n), ..st }
                }
            },
            None => match parse_atx_heading_spec(l) {
                Some((level, title, existing)) => {
                    let id = match existing {
                        Some(i) => i,
                        None => auto_heading_id(st.headings.len() + 1),
                    };
                    PreState {
                        out: st.out + anchored_line(l, id),
                        headings: st.headings.push(
                            HeadingView { id, title, level, page_index: 0 },
                        ),
                        ..st
                    }
                },
                None => PreState { out: st.out + l, ..st },
            },
        },
    }
}

/// Processing of the lines of `s` from position `i` on.
pub open spec fn pre_run(s: Seq<char>, i: int, st: PreState, rendered: Seq<Seq<char>>) -> PreState
    decreases s.len() - i,
{
    if 0 <= i < s.len() {
        proof {
            lemma_line_end(s, i);
        }
        pre_run(s, line_end(s, i), pre_step(st, s.subrange(i, line_end(s, i)), rendered), rendered)
    } else {
        st
    }
}

/// The output once the text has ended: a Mermaid fence left open is written
/// back as a plain Mermaid code block.
pub open spec fn finished_output(st: PreState) -> Seq<char> {
    match st.fence {
        FenceState::Diagram(m, n, src) => st.out + Seq::new(n, |k: int| m) + mermaid_word()
            + seq!['\n'] + src,
        _ => st.out,
    }
}

/// Sources of the closed Mermaid fences of `s`, in order.
pub open spec fn mermaid_diagrams_spec(s: Seq<char>) -> Seq<Seq<char>> {
    pre_run(s, 0, initial_state(), seq![]).diagrams
}

/// Output text, outline and number of rendered diagrams.
pub open spec fn preprocess_spec(s: Seq<char>, rendered: Seq<Seq<char>>) -> (
    Seq<char>,
    Seq<HeadingView>,
    nat,
) {
    let st = pre_run(s, 0, initial_state(), rendered);
    (finished_output(st), st.headings, st.diagrams.len())
}

/// Two states that differ at most in their output.
pub open spec fn same_shape(a: PreState, b: PreState) -> bool {
    a.headings == b.headings && a.fence == b.fence && a.diagrams == b.diagrams
}

/// What the preprocessor finds (outline, fences, diagrams) does not depend
/// on the renderings it is given.
pub proof fn lemma_shape_independent(
    s: Seq<char>,
    i: int,
    a: PreState,
    b: PreState,
    ra: Seq<Seq<char>>,
    rb: Seq<Seq<char>>,
)
    requires
        same_shape(a, b),
    ensures
        same_shape(pre_run(s, i, a, ra), pre_run(s, i, b, rb)),
    decreases s.len() - i,
{
    if 0 <= i < s.len() {
        lemma_line_end(s, i);
        let l = s.subrange(i, line_end(s, i));
        lemma_shape_independent(s, line_end(s, i), pre_step(a, l, ra), pre_step(b, l, rb), ra, rb);
    }
}

/// Every outline entry has a level from 1 to 6, a non-empty id, and the
/// first page as its page until pages are assigned.
pub open spec fn outline_entries_valid(hs: Seq<HeadingView>) -> bool {
    forall|k: int|
        0 <= k < hs.len() ==> 1 <= (#[trigger] hs[k]).level <= 6 && hs[k].id.len() > 0
            && hs[k].page_index == 0
}

proof fn lemma_step_keeps_outline(st: PreState, l: Seq<char>, rendered: Seq<Seq<char>>)
    requires
        outline_entries_valid(st.headings),
    ensures
        outline_entries_valid(pre_step(st, l, rendered).headings),
{
    let r = pre_step(st, l, rendered);
    if r.headings.len() > st.headings.len() {
        match parse_atx_heading_spec(l) {
            Some((level, title, existing)) => {
                assert(auto_id_prefix().len() == 17);
                assert forall|k: int| 0 <= k < r.headings.len() implies 1 <= (
                #[trigger] r.headings[k]).level <= 6 && r.headings[k].id.len() > 0
                    && r.headings[k].page_index == 0 by {
                    if k < st.headings.len() {
                        assert(r.headings[k] == st.headings[k]);
                    }
                }
            },
            None => {},
        }
    }
}

proof fn lemma_run_keeps_outline(s: Seq<char>, i: int, st: PreState, rendered: Seq<Seq<char>>)
    requires
        outline_entries_valid(st.headings),
    ensures
        outline_entries_valid(pre_run(s, i, st, rendered).headings),
    decreases s.len() - i,
{
    if 0 <= i < s.len() {
        lemma_line_end(s, i);
        let l = s.subrange(i, line_end(s, i));
        lemma_step_keeps_outline(st, l, rendered);
        lemma_run_keeps_outline(s, line_end(s, i), pre_step(st, l, rendered), rendered);
    }
}

/// Every outline entry of a preprocessed document has a level from 1 to 6,
/// a non-empty id and page 0; and the number of diagrams it reports is the
/// number of closed Mermaid fences, whatever renderings it is given.
pub proof fn lemma_preprocess_outline(s: Seq<char>, rendered: Seq<Seq<char>>)
    ensures
        outline_entries_valid(preprocess_spec(s, rendered).1),
        preprocess_spec(s, rendered).2 == mermaid_diagrams_spec(s).len(),
        preprocess_spec(s, rendered).1 == preprocess_spec(s, seq![]).1,
{
    lemma_run_keeps_outline(s, 0, initial_state(), rendered);
    lemma_shape_independent(s, 0, initial_state(), initial_state(), rendered, seq![]);
}

enum Fence {
    Closed,
    Code { marker: char, length: usize },
    Diagram { marker: char, length: usize, source: Vec<char> },
}

impl Fence {
    spec fn view(&self) -> FenceState {
        match self {
            Fence::Closed => FenceState::Closed,
            Fence::Code { marker, length } => FenceState::Code(*marker, *length as nat),
            Fence::Diagram { marker, length, source } => FenceState::Diagram(
                *marker,
                *length as nat,
                source@,
            ),
        }
    }
}

struct Preprocessor {
    out: Vec<char>,
    headings: Vec<Heading>,
    fence: Fence,
    diagrams: Vec<Vec<char>>,
}

impl Preprocessor {
    spec fn view(&self) -> PreState {
        PreState {
            out: self.out@,
            headings: headings_view(self.headings@),
            fence: self.fence.view(),
            diagrams: seqs_view(self.diagrams@),
        }
    }

    fn new() -> (r: Preprocessor)
        ensures
            r.view() == initial_state(),
    {
        let r = Preprocessor {
            out: Vec::new(),
            headings: Vec::new(),
            fence: Fence::Closed,
            diagrams: Vec::new(),
        };
        assert(r.view().headings =~= seq![]);
        assert(r.view().diagrams =~= seq![]);
        r
    }

    fn push_heading(&mut self, l: &[char], level: usize, title: Vec<char>, existing: Option<Vec<char>>)
        requires
            old(self).headings@.len() < usize::MAX,
        ensures
            final(self).view() == (PreState {
                out: old(self).view().out + anchored_line(
                    l@,
                    heading_id_of(existing, old(self).headings@.len()),
                ),
                headings: old(self).view().headings.push(
                    HeadingView {
                        id: heading_id_of(existing, old(self).headings@.len()),
                        title: title@,
                        level: level as nat,
                        page_index: 0,
                    },
                ),
                ..old(self).view()
            }),
            final(self).headings@.len() == old(self).headings@.len() + 1,
    {
        let id = heading_id(existing, self.headings.len());
        push_anchored_line(&mut self.out, l, id.as_slice());
        let heading = Heading {
            id: string_from_chars(id.as_slice()),
            title: string_from_chars(title.as_slice()),
            level,
            page_index: 0,
        };
        let ghost old_headings = self.headings@;
        self.headings.push(heading);
        assert(headings_view(self.headings@) =~= headings_view(old_headings).push(heading@));
    }

    fn step(&mut self, l: &[char], rendered: &Vec<Vec<char>>)
        requires
            old(self).headings@.len() < usize::MAX,
        ensures
            final(self).view() == pre_step(old(self).view(), l@, seqs_view(rendered@)),
            final(self).headings@.len() <= old(self).headings@.len() + 1,
    {
        let mut fence = Fence::Closed;
        std::mem::swap(&mut fence, &mut self.fence);
        match fence {
            Fence::Code { marker, length } => {
                push_all(&mut self.out, l);
                if !is_closing_fence_chars(l, marker, length) {
                    self.fence = Fence::Code { marker, length };
                }
            },
            Fence::Diagram { marker, length, source } => {
                if is_closing_fence_chars(l, marker, length) {
                    let k = self.diagrams.len();
                    if k < rendered.len() {
                        push_all(&mut self.out, rendered[k].as_slice());
                    }
                    let ghost old_diagrams = self.diagrams@;
                    self.diagrams.push(source);
                    assert(seqs_view(self.diagrams@) =~= seqs_view(old_diagrams).push(source@));
                } else {
                    let mut source = source;
                    push_all(&mut source, l);
                    self.fence = Fence::Diagram { marker, length, source };
                }
            },
            Fence::Closed => {
                match opening_fence_chars(l) {
                    Some((marker, length, a, b)) => {
                        let mermaid = vec!['m', 'e', 'r', 'm', 'a', 'i', 'd'];
                        if chars_eq_ignore_case(&l[a..b], mermaid.as_slice()) {
                            self.fence = Fence::Diagram { marker, length, source: Vec::new() };
                            assert(self.fence.view() == FenceState::Diagram(marker, length as nat, seq![]));
                        } else {
                            push_all(&mut self.out, l);
                            self.fence = Fence::Code { marker, length };
                        }
                    },
                    None => {
                        match parse_atx_heading_chars(l) {
                            Some((level, title, existing)) => {
                                self.push_heading(l, level, title, existing);
                            },
                            None => {
                                push_all(&mut self.out, l);
                            },
                        }
                    },
                }
            },
        }
    }

    fn finish(self) -> (r: (Vec<char>, Vec<Heading>, Vec<Vec<char>>))
        ensures
            r.0@ == finished_output(self.view()),
            headings_view(r.1@) == self.view().headings,
            seqs_view(r.2@) == self.view().diagrams,
    {
        let mut out = self.out;
        match self.fence {
            Fence::Diagram { marker, length, source } => {
                let ghost before = out@;
                let mut k: usize = 0;
                while k < length
                    invariant
                        k <= length,
                        out@ =~= before + Seq::new(k as nat, |j: int| marker),
                    decreases length - k,
                {
                    out.push(marker);
                    k = k + 1;
                }
                push_all(&mut out, vec!['m', 'e', 'r', 'm', 'a', 'i', 'd', '\n'].as_slice());
                push_all(&mut out, source.as_slice());
                assert(out@ =~= before + Seq::new(length as nat, |j: int| marker) + mermaid_word()
                    + seq!['\n'] + source@);
            },
            _ => {},
        }
        (out, self.headings, self.diagrams)
    }
}

fn heading_id(existing: Option<Vec<char>>, count: usize) -> (id: Vec<char>)
    requires
        count < usize::MAX,
    ensures
        id@ == heading_id_of(existing, count as nat),
{
    match existing {
        Some(v) => v,
        None => {
            let mut v: Vec<char> = Vec::new();
            push_all(
                &mut v,
                vec!['m', 'd', 'r', 'e', 'a', 'd', 'e', 'r', '-', 'h', 'e', 'a', 'd', 'i', 'n', 'g', '-'].as_slice(),
            );
            push_decimal(&mut v, count + 1);
            assert(v@ =~= auto_heading_id((count + 1) as nat));
            v
        },
    }
}

fn push_anchored_line(out: &mut Vec<char>, l: &[char], id: &[char])
    ensures
        final(out)@ == old(out)@ + anchored_line(l@, id@),
{
    let body_end = back_eol(l, l.len());
    let body = &l[0..body_end];
    assert(body@ =~= trim_eol(l@));
    let open = vec!['{', '#'];
    assert(open@ =~= seq!['{', '#']);
    if contains_chars(body, open.as_slice()) {
        push_all(out, l);
    } else {
        let ghost before = out@;
        push_all(out, body);
        out.push(' ');
        out.push('{');
        out.push('#');
        push_all(out, id);
        out.push('}');
        let n = l.len();
        if n >= 2 && l[n - 2] == '\r' && l[n - 1] == '\n' {
            out.push('\r');
            out.push('\n');
        } else if n >= 1 && l[n - 1] == '\n' {
            out.push('\n');
        }
        assert(out@ =~= before + anchored_line(l@, id@));
    }
}

/// The id a heading gets: its own, or the automatic one for the heading
/// after `count` earlier ones.
pub open spec fn heading_id_of(existing: Option<Vec<char>>, count: nat) -> Seq<char> {
    match existing {
        Some(v) => v@,
        None => auto_heading_id(count + 1),
    }
}

/// Runs the preprocessor over the chars of a document.
fn run_preprocessor(s: &[char], rendered: &Vec<Vec<char>>) -> (r: (Vec<char>, Vec<Heading>, Vec<Vec<char>>))
    ensures
        r.0@ == finished_output(pre_run(s@, 0, initial_state(), seqs_view(rendered@))),
        headings_view(r.1@) == pre_run(s@, 0, initial_state(), seqs_view(rendered@)).headings,
        seqs_view(r.2@) == pre_run(s@, 0, initial_state(), seqs_view(rendered@)).diagrams,
{
    let mut p = Preprocessor::new();
    let mut pos: usize = 0;
    while pos < s.len()
        invariant
            pos <= s@.len(),
            p.headings@.len() <= pos,
            pre_run(s@, 0, initial_state(), seqs_view(rendered@)) == pre_run(
                s@,
                pos as int,
                p.view(),
                seqs_view(rendered@),
            ),
        decreases s@.len() - pos,
    {
        let e = next_line_end(s, pos);
        p.step(&s[pos..e], rendered);
        pos = e;
    }
    p.finish()
}

/// Sources of the closed Mermaid fences of `source`, in order: what
/// [`preprocess_markdown`] expects renderings of.
pub fn mermaid_diagrams(source: &str) -> (r: Vec<String>)
    ensures
        strings_view(r@) == mermaid_diagrams_spec(source@),
{
    let chars = chars_of(source);
    let none: Vec<Vec<char>> = Vec::new();
    assert(seqs_view(none@) =~= seq![]);
    let (_, _, diagrams) = run_preprocessor(chars.as_slice(), &none);
    let mut r: Vec<String> = Vec::new();
    let mut i: usize = 0;
    while i < diagrams.len()
        invariant
            i <= diagrams@.len(),
            strings_view(r@) =~= seqs_view(diagrams@).take(i as int),
        decreases diagrams@.len() - i,
    {
        let ghost old_r = r@;
        r.push(string_from_chars(diagrams[i].as_slice()));
        assert(strings_view(r@) =~= strings_view(old_r).push(diagrams@[i as int]@));
        assert(seqs_view(diagrams@).take(i + 1) =~= seqs_view(diagrams@).take(i as int).push(
            diagrams@[i as int]@,
        ));
        i = i + 1;
    }
    assert(seqs_view(diagrams@).take(i as int) =~= seqs_view(diagrams@));
    r
}

/// `preprocess_markdown`: adds heading anchors, collects the outline and
/// replaces closed Mermaid fences by `rendered_diagrams`, which holds one
/// rendering per diagram that [`mermaid_diagrams`] lists.  Returns the new
/// text, the outline and the number of diagrams.
pub fn preprocess_markdown(source: &str, rendered_diagrams: &Vec<String>) -> (r: (String, Vec<Heading>, usize))
    requires
        rendered_diagrams@.len() == mermaid_diagrams_spec(source@).len(),
    ensures
        r.0@ == preprocess_spec(source@, strings_view(rendered_diagrams@)).0,
        headings_view(r.1@) == preprocess_spec(source@, strings_view(rendered_diagrams@)).1,
        r.2 == preprocess_spec(source@, strings_view(rendered_diagrams@)).2,
        r.2 == rendered_diagrams@.len(),
{
    let chars = chars_of(source);
    let mut rendered: Vec<Vec<char>> = Vec::new();
    let mut i: usize = 0;
    while i < rendered_diagrams.len()
        invariant
            i <= rendered_diagrams@.len(),
            seqs_view(rendered@) =~= strings_view(rendered_diagrams@).take(i as int),
        decreases rendered_diagrams@.len() - i,
    {
        let ghost old_r = rendered@;
        rendered.push(chars_of(rendered_diagrams[i].as_str()));
        assert(seqs_view(rendered@) =~= seqs_view(old_r).push(rendered_diagrams@[i as int]@));
        assert(strings_view(rendered_diagrams@).take(i + 1) =~= strings_view(rendered_diagrams@).take(
            i as int,
        ).push(rendered_diagrams@[i as int]@));
        i = i + 1;
    }
    assert(strings_view(rendered_diagrams@).take(i as int) =~= strings_view(rendered_diagrams@));
    let (out, headings, diagrams) = run_preprocessor(chars.as_slice(), &rendered);
    proof {
        lemma_shape_independent(source@, 0, initial_state(), initial_state(), seqs_view(rendered@), seq![]);
    }
    (string_from_chars(out.as_slice()), headings, diagrams.len())
}

} // verus!
