//! Line-level Markdown rules: code fences and ATX headings.

use vstd::prelude::*;
use crate::text::{
    all_ws, back_run, back_ws, chars_of, is_whitespace, is_ws, lemma_run_back, lemma_trim_trim,
    lemma_ws_end, push_all, run_back, trim_start,
    run_end, skip_run, skip_word, skip_ws, string_from_chars, trim, trim_end_char, utf8_len,
    utf8_len_at_least, word_end, ws_end,
};

verus! {

/// More than three bytes of leading whitespace: `line.len() - line.trim_start().len() > 3`.
pub open spec fn over_indented(l: Seq<char>) -> bool {
    utf8_len(l.take(ws_end(l, 0))) > 3
}

/// An opening code fence: up to three bytes of indentation, then at least
/// three backticks or tildes; the language is the first whitespace-separated
/// word after them (empty when there is none).
pub open spec fn opening_fence_spec(l: Seq<char>) -> Option<(char, nat, Seq<char>)> {
    let k = ws_end(l, 0);
    if over_indented(l) || k >= l.len() {
        None
    } else if l[k] != '`' && l[k] != '~' {
        None
    } else {
        let e = run_end(l, k, l[k]);
        if e - k < 3 {
            None
        } else {
            let ls = ws_end(l, e);
            Some((l[k], (e - k) as nat, l.subrange(ls, word_end(l, ls))))
        }
    }
}

/// A closing fence: the trimmed line is only `marker` chars and takes at
/// least `min` bytes.
pub open spec fn is_closing_fence_spec(l: Seq<char>, marker: char, min: nat) -> bool {
    let t = trim(l);
    utf8_len(t) >= min && forall|k: int| 0 <= k < t.len() ==> #[trigger] t[k] == marker
}

/// The last position `p <= i` where `"{#"` starts in `t`, or -1.
pub open spec fn last_id_open(t: Seq<char>, i: int) -> int
    decreases i + 1,
{
    if i < 0 {
        -1
    } else if i + 1 < t.len() && t[i] == '{' && t[i + 1] == '#' {
        i
    } else {
        last_id_open(t, i - 1)
    }
}

/// Splits a trailing `{#id}` off a heading title: the title is cut before
/// the last `{#` when the title ends with `}`, and the id between them is
/// kept when it is not empty after trimming.
pub open spec fn split_heading_id(t: Seq<char>) -> (Seq<char>, Option<Seq<char>>) {
    let p = last_id_open(t, t.len() - 1);
    if p < 0 || t.len() == 0 || t.last() != '}' {
        (t, None)
    } else {
        let id = trim(t.subrange(p + 2, t.len() - 1));
        (trim(t.subrange(0, p)), if id.len() == 0 { None } else { Some(id) })
    }
}

/// An ATX heading: up to three bytes of indentation, one to six `#`, then
/// whitespace.  The title is the rest with surrounding whitespace and
/// closing `#`s removed, and an explicit `{#id}` split off.
pub open spec fn parse_atx_heading_spec(l: Seq<char>) -> Option<(nat, Seq<char>, Option<Seq<char>>)> {
    let k = ws_end(l, 0);
    let h = run_end(l, k, '#');
    if over_indented(l) || h - k < 1 || h - k > 6 || h >= l.len() || !is_ws(l[h]) {
        None
    } else {
        let t = trim(trim_end_char(trim(l.subrange(h, l.len() as int)), '#'));
        let (title, id) = split_heading_id(t);
        Some(((h - k) as nat, title, id))
    }
}

/// A line is a heading exactly when it has at most three bytes of
/// indentation, then one to six `#`, then whitespace.  A heading's level
/// is between one and six, its title carries no surrounding whitespace,
/// and an explicit id is not empty and carries no surrounding whitespace.
pub proof fn lemma_heading_parts(l: Seq<char>)
    ensures
        parse_atx_heading_spec(l).is_some() <==> ({
            let k = ws_end(l, 0);
            let h = run_end(l, k, '#');
            &&& !over_indented(l)
            &&& 1 <= h - k <= 6
            &&& h < l.len()
            &&& is_ws(l[h])
        }),
        parse_atx_heading_spec(l) matches Some((level, title, id)) ==> {
            &&& 1 <= level <= 6
            &&& trim(title) == title
            &&& (id matches Some(i) ==> i.len() > 0 && trim(i) == i)
        },
{
    let k = ws_end(l, 0);
    let h = run_end(l, k, '#');
    if parse_atx_heading_spec(l).is_some() {
        let t = trim(trim_end_char(trim(l.subrange(h, l.len() as int)), '#'));
        lemma_trim_trim(trim_end_char(trim(l.subrange(h, l.len() as int)), '#'));
        let p = last_id_open(t, t.len() - 1);
        if !(p < 0 || t.len() == 0 || t.last() != '}') {
            lemma_trim_trim(t.subrange(0, p));
            lemma_trim_trim(t.subrange(p + 2, t.len() - 1));
        }
    }
}

proof fn lemma_utf8_len_marker_run(m: char, c: nat)
    requires
        m <= '\u{7f}',
    ensures
        utf8_len(Seq::new(c, |i: int| m)) == c,
    decreases c,
{
    if c > 0 {
        lemma_utf8_len_marker_run(m, (c - 1) as nat);
        assert(Seq::new(c, |i: int| m).drop_last() =~= Seq::new((c - 1) as nat, |i: int| m));
    }
}

/// A closing fence is at least as long as the fence it closes: a line that
/// closes a fence of `marker` opened with `min` chars takes at least `min`
/// bytes once trimmed and holds nothing but `marker`.  A line of `c`
/// markers (with surrounding whitespace) closes such a fence exactly when
/// `c >= min`, so three backticks never close a fence opened with four.
pub proof fn lemma_closing_fence_length(l: Seq<char>, marker: char, min: nat, c: nat)
    ensures
        is_closing_fence_spec(l, marker, min) ==> utf8_len(trim(l)) >= min && forall|k: int|
            0 <= k < trim(l).len() ==> #[trigger] trim(l)[k] == marker,
        (marker == '`' || marker == '~') && trim(l) == Seq::new(c, |i: int| marker) ==> (
        is_closing_fence_spec(l, marker, min) <==> c >= min),
{
    if (marker == '`' || marker == '~') && trim(l) == Seq::new(c, |i: int| marker) {
        lemma_utf8_len_marker_run(marker, c);
    }
}

/// The level of a heading is the number of `#` it starts with: once its
/// indentation is trimmed, the line begins with exactly `level` `#` chars
/// followed by whitespace.
pub proof fn lemma_heading_level_counts_marks(l: Seq<char>)
    ensures
        parse_atx_heading_spec(l) matches Some((level, _, _)) ==> ({
            let t = trim_start(l);
            &&& level < t.len()
            &&& forall|i: int| 0 <= i < level ==> #[trigger] t[i] == '#'
            &&& is_ws(t[level as int])
        }),
{
    if parse_atx_heading_spec(l).is_some() {
        let k = ws_end(l, 0);
        let h = run_end(l, k, '#');
        lemma_ws_end(l, 0);
        lemma_run_end_marks(l, k, '#');
        let t = trim_start(l);
        assert forall|i: int| 0 <= i < h - k implies #[trigger] t[i] == '#' by {
            assert(t[i] == l[k + i]);
        }
        assert(t[h - k] == l[h]);
    }
}

proof fn lemma_run_end_marks(s: Seq<char>, i: int, c: char)
    requires
        0 <= i <= s.len(),
    ensures
        i <= run_end(s, i, c) <= s.len(),
        forall|x: int| i <= x < run_end(s, i, c) ==> #[trigger] s[x] == c,
    decreases s.len() - i,
{
    if i < s.len() && s[i] == c {
        lemma_run_end_marks(s, i + 1, c);
    }
}

fn over_indented_exec(l: &[char], k: usize) -> (r: bool)
    requires
        k == ws_end(l@, 0),
        k <= l@.len(),
    ensures
        r == over_indented(l@),
{
    let r = utf8_len_at_least(&l[0..k], 4);
    assert(l@.subrange(0, k as int) =~= l@.take(k as int));
    r
}

/// Opening-fence recognition on a char slice; the language is returned as
/// a range of `l`.
pub fn opening_fence_chars(l: &[char]) -> (r: Option<(char, usize, usize, usize)>)
    ensures
        match r {
            Some((m, n, a, b)) => a <= b <= l@.len() && opening_fence_spec(l@) == Some(
                (m, n as nat, l@.subrange(a as int, b as int)),
            ),
            None => opening_fence_spec(l@).is_none(),
        },
{
    let k = skip_ws(l, 0);
    if over_indented_exec(l, k) || k >= l.len() {
        return None;
    }
    let m = l[k];
    if m != '`' && m != '~' {
        return None;
    }
    let e = skip_run(l, k, m);
    if e - k < 3 {
        return None;
    }
    let ls = skip_ws(l, e);
    let le = skip_word(l, ls);
    Some((m, e - k, ls, le))
}

/// `opening_fence`: marker, marker count and language of an opening code fence.
pub fn opening_fence(line: &str) -> (r: Option<(char, usize, String)>)
    ensures
        match r {
            Some((m, n, lang)) => opening_fence_spec(line@) == Some((m, n as nat, lang@)),
            None => opening_fence_spec(line@).is_none(),
        },
{
    let l = chars_of(line);
    match opening_fence_chars(l.as_slice()) {
        Some((m, n, a, b)) => Some((m, n, string_from_chars(&l.as_slice()[a..b]))),
        None => None,
    }
}

pub fn is_closing_fence_chars(l: &[char], marker: char, minimum_length: usize) -> (r: bool)
    ensures
        r == is_closing_fence_spec(l@, marker, minimum_length as nat),
{
    let a = skip_ws(l, 0);
    let b = back_ws(l, l.len(), a);
    let t = &l[a..b];
    assert(t@ =~= trim(l@));
    if !utf8_len_at_least(t, minimum_length) {
        return false;
    }
    let mut i: usize = 0;
    while i < t.len()
        invariant
            i <= t@.len(),
            t@ == trim(l@),
            utf8_len(t@) >= minimum_length,
            forall|k: int| 0 <= k < i ==> #[trigger] t@[k] == marker,
        decreases t@.len() - i,
    {
        if t[i] != marker {
            assert(trim(l@)[i as int] != marker);
            return false;
        }
        i = i + 1;
    }
    true
}

/// `is_closing_fence`: the trimmed line closes a fence of `marker` that was
/// opened with `minimum_length` chars.
pub fn is_closing_fence(line: &str, marker: char, minimum_length: usize) -> (r: bool)
    ensures
        r == is_closing_fence_spec(line@, marker, minimum_length as nat),
{
    let l = chars_of(line);
    is_closing_fence_chars(l.as_slice(), marker, minimum_length)
}

fn last_id_open_exec(t: &[char]) -> (r: Option<usize>)
    ensures
        match r {
            Some(p) => p as int == last_id_open(t@, t@.len() - 1) && p + 1 < t@.len() && t@[p as int]
                == '{' && t@[p + 1] == '#',
            None => last_id_open(t@, t@.len() - 1) < 0,
        },
{
    let mut i = t.len();
    // `i` is one past the candidate position
    while i > 0
        invariant
            i <= t@.len(),
            last_id_open(t@, t@.len() - 1) == last_id_open(t@, i - 1),
        decreases i,
    {
        let p = i - 1;
        if p + 1 < t.len() && t[p] == '{' && t[p + 1] == '#' {
            return Some(p);
        }
        i = i - 1;
    }
    None
}

fn trim_range(s: &[char], a: usize, b: usize) -> (r: (usize, usize))
    requires
        a <= b <= s@.len(),
    ensures
        a <= r.0 <= r.1 <= b,
        s@.subrange(r.0 as int, r.1 as int) == trim(s@.subrange(a as int, b as int)),
{
    let sub = &s[a..b];
    let x = skip_ws(sub, 0);
    let y = back_ws(sub, sub.len(), x);
    assert(s@.subrange(a + x, a + y) =~= sub@.subrange(x as int, y as int));
    (a + x, a + y)
}

/// Heading recognition on a char slice.
pub fn parse_atx_heading_chars(l: &[char]) -> (r: Option<(usize, Vec<char>, Option<Vec<char>>)>)
    ensures
        match r {
            Some((level, title, id)) => parse_atx_heading_spec(l@) == Some(
                (
                    level as nat,
                    title@,
                    match id {
                        Some(i) => Some(i@),
                        None => None,
                    },
                ),
            ),
            None => parse_atx_heading_spec(l@).is_none(),
        },
{
    let k = skip_ws(l, 0);
    let h = skip_run(l, k, '#');
    if over_indented_exec(l, k) || h - k < 1 || h - k > 6 || h >= l.len() || !is_whitespace(l[h]) {
        return None;
    }
    let ghost lv = l@;
    // trim(l[h..])
    let (a1, b1) = trim_range(l, h, l.len());
    // trim_end_matches('#')
    let b2 = back_run(l, b1, a1, '#');
    assert(l@.subrange(a1 as int, b2 as int) =~= trim_end_char(l@.subrange(a1 as int, b1 as int), '#'))
        by {
        let u = l@.subrange(a1 as int, b1 as int);
        lemma_run_back(lv, b1 as int, a1 as int, '#');
        lemma_run_back(u, u.len() as int, 0, '#');
        lemma_run_back_shift(lv, a1 as int, b1 as int, '#');
    }
    let (a, b) = trim_range(l, a1, b2);
    let t = &l[a..b];
    let level = h - k;
    let ghost tv = t@;
    assert(tv == trim(trim_end_char(trim(l@.subrange(h as int, l@.len() as int)), '#')));
    match last_id_open_exec(t) {
        None => {
            let mut title: Vec<char> = Vec::new();
            push_all(&mut title, t);
            Some((level, title, None))
        },
        Some(p) => {
            if t.len() == 0 || t[t.len() - 1] != '}' {
                let mut title: Vec<char> = Vec::new();
                push_all(&mut title, t);
                return Some((level, title, None));
            }
            let (ia, ib) = trim_range(t, p + 2, t.len() - 1);
            let (ta, tb) = trim_range(t, 0, p);
            let mut title: Vec<char> = Vec::new();
            push_all(&mut title, &t[ta..tb]);
            if ia == ib {
                Some((level, title, None))
            } else {
                let mut id: Vec<char> = Vec::new();
                push_all(&mut id, &t[ia..ib]);
                Some((level, title, Some(id)))
            }
        },
    }
}

/// `run_back` over a subrange agrees with `run_back` over the whole sequence
/// bounded below by the subrange start.
proof fn lemma_run_back_shift(s: Seq<char>, a: int, b: int, c: char)
    requires
        0 <= a <= b <= s.len(),
    ensures
        run_back(s.subrange(a, b), b - a, 0, c) + a == run_back(s, b, a, c),
    decreases b - a,
{
    let u = s.subrange(a, b);
    if a < b && s[b - 1] == c {
        assert(u[b - a - 1] == s[b - 1]);
        lemma_run_back_shift(s, a, b - 1, c);
        assert(s.subrange(a, b - 1) =~= u.subrange(0, b - 1 - a));
        lemma_run_back_prefix(u, b - a - 1, c);
    } else if a < b {
        assert(u[b - a - 1] == s[b - 1]);
    }
}

/// `run_back` does not look past its starting point.
proof fn lemma_run_back_prefix(u: Seq<char>, j: int, c: char)
    requires
        0 <= j <= u.len(),
    ensures
        run_back(u.subrange(0, j), j, 0, c) == run_back(u, j, 0, c),
    decreases j,
{
    if 0 < j && u[j - 1] == c {
        assert(u.subrange(0, j)[j - 1] == u[j - 1]);
        lemma_run_back_prefix(u, j - 1, c);
        assert(u.subrange(0, j).subrange(0, j - 1) =~= u.subrange(0, j - 1));
        lemma_run_back_prefix(u.subrange(0, j), j - 1, c);
    } else if 0 < j {
        assert(u.subrange(0, j)[j - 1] == u[j - 1]);
    }
}

/// `parse_atx_heading`: level, title and explicit id of an ATX heading line.
pub fn parse_atx_heading(line: &str) -> (r: Option<(usize, String, Option<String>)>)
    ensures
        match r {
            Some((level, title, id)) => parse_atx_heading_spec(line@) == Some(
                (
                    level as nat,
                    title@,
                    match id {
                        Some(i) => Some(i@),
                        None => None,
                    },
                ),
            ),
            None => parse_atx_heading_spec(line@).is_none(),
        },
{
    let l = chars_of(line);
    match parse_atx_heading_chars(l.as_slice()) {
        Some((level, title, id)) => {
            let t = string_from_chars(title.as_slice());
            let i = match id {
                Some(v) => Some(string_from_chars(v.as_slice())),
                None => None,
            };
            Some((level, t, i))
        },
        None => None,
    }
}

} // verus!
