//! What an anchored heading line reads as: the anchor that the
//! preprocessor puts on a heading line is read back as the heading's id,
//! and the line stays a heading of the same level outside any code fence.

use vstd::prelude::*;
use crate::markdown::{
    last_id_open, opening_fence_spec, over_indented, parse_atx_heading_spec, split_heading_id,
};
use crate::preprocess::{anchored_line, auto_heading_id, auto_id_prefix, line_ending};
use crate::text::{
    contains, decimal, digit_char, eol_back, is_ws, lemma_run_back, lemma_trim_fixed, lemma_ws_back,
    lemma_ws_end, occurs_at, run_back, run_end, trim, trim_end_char, trim_eol, ws_back, ws_end,
};

verus! {

/// An id that reads back as itself after ` {#` and before `}`: not empty,
/// and without `{`, whitespace or line breaks.
pub open spec fn plain_id(id: Seq<char>) -> bool {
    id.len() > 0 && forall|j: int| 0 <= j < id.len() ==> #[trigger] id[j] != '{' && !is_ws(id[j])
}

proof fn lemma_decimal_digits(n: nat)
    ensures
        decimal(n).len() > 0,
        forall|j: int| 0 <= j < decimal(n).len() ==> '0' <= #[trigger] decimal(n)[j] <= '9',
    decreases n,
{
    if n >= 10 {
        lemma_decimal_digits(n / 10);
        let d = decimal(n / 10);
        assert forall|j: int| 0 <= j < decimal(n).len() implies '0' <= #[trigger] decimal(n)[j] <= '9' by {
            if j < d.len() {
                assert(decimal(n)[j] == d[j]);
            }
        }
    }
}

/// The ids the preprocessor makes up are plain.
pub proof fn lemma_auto_id_plain(n: nat)
    ensures
        plain_id(auto_heading_id(n)),
{
    lemma_decimal_digits(n);
    let p = auto_id_prefix();
    let id = auto_heading_id(n);
    assert forall|j: int| 0 <= j < id.len() implies #[trigger] id[j] != '{' && !is_ws(id[j]) by {
        if j < p.len() {
            assert(id[j] == p[j]);
        } else {
            assert(id[j] == decimal(n)[j - p.len()]);
        }
    }
}

/// Line-break chars.
pub open spec fn is_eol(c: char) -> bool {
    c == '\r' || c == '\n'
}

pub proof fn lemma_eol_back(l: Seq<char>, j: int)
    requires
        0 <= j <= l.len(),
    ensures
        0 <= eol_back(l, j) <= j,
        forall|x: int| eol_back(l, j) <= x < j ==> is_eol(#[trigger] l[x]),
        eol_back(l, j) == 0 || !is_eol(l[eol_back(l, j) - 1]),
    decreases j,
{
    if 0 < j && is_eol(l[j - 1]) {
        lemma_eol_back(l, j - 1);
    }
}

proof fn lemma_last_id_open_bounds(t: Seq<char>, i: int)
    requires
        i < t.len(),
    ensures
        last_id_open(t, i) >= 0 ==> last_id_open(t, i) <= i && last_id_open(t, i) + 1 < t.len()
            && t[last_id_open(t, i)] == '{' && t[last_id_open(t, i) + 1] == '#',
        last_id_open(t, i) < 0 ==> last_id_open(t, i) == -1,
    decreases i + 1,
{
    if i >= 0 && !(i + 1 < t.len() && t[i] == '{' && t[i + 1] == '#') {
        lemma_last_id_open_bounds(t, i - 1);
    }
}

proof fn lemma_last_id_open_at(t: Seq<char>, q: int, j: int)
    requires
        0 <= q <= j < t.len(),
        q + 1 < t.len(),
        t[q] == '{' && t[q + 1] == '#',
        forall|i: int| q < i <= j ==> !(i + 1 < t.len() && #[trigger] t[i] == '{' && t[i + 1] == '#'),
    ensures
        last_id_open(t, j) == q,
    decreases j - q,
{
    if j > q {
        lemma_last_id_open_at(t, q, j - 1);
    }
}

/// An explicit id read from a heading line comes from before its line
/// ending: the line without its line ending holds `{#`.
pub proof fn lemma_existing_id_in_body(l: Seq<char>)
    requires
        parse_atx_heading_spec(l) matches Some((_, _, Some(_))),
    ensures
        contains(trim_eol(l), seq!['{', '#']),
{
    let n = l.len() as int;
    let k = ws_end(l, 0);
    let h = run_end(l, k, '#');
    let u0 = l.subrange(h, n);
    lemma_ws_end(u0, 0);
    let a0 = ws_end(u0, 0);
    lemma_ws_back(u0, u0.len() as int, a0);
    let b0 = ws_back(u0, u0.len() as int, a0);
    let u1 = u0.subrange(a0, b0);
    assert(u1 =~= l.subrange(h + a0, h + b0));
    lemma_run_back(u1, u1.len() as int, 0, '#');
    let r1 = run_back(u1, u1.len() as int, 0, '#');
    let u2 = u1.subrange(0, r1);
    assert(u2 == trim_end_char(u1, '#'));
    assert(u2 =~= l.subrange(h + a0, h + a0 + r1));
    lemma_ws_end(u2, 0);
    let a2 = ws_end(u2, 0);
    lemma_ws_back(u2, u2.len() as int, a2);
    let b2 = ws_back(u2, u2.len() as int, a2);
    let t = u2.subrange(a2, b2);
    let x = h + a0 + a2;
    let y = h + a0 + b2;
    assert(t =~= l.subrange(x, y));
    assert(t == trim(trim_end_char(trim(l.subrange(h, n)), '#')));
    let p = last_id_open(t, t.len() - 1);
    lemma_last_id_open_bounds(t, t.len() - 1);
    assert(t.len() > 0 && t.last() == '}' && p >= 0);
    lemma_eol_back(l, n);
    let b = eol_back(l, n);
    assert(l[y - 1] == '}');
    assert(y <= b) by {
        if y > b {
            assert(is_eol(l[y - 1]));
        }
    }
    let body = trim_eol(l);
    assert(body =~= l.subrange(0, b));
    assert(body.subrange(x + p, x + p + 2) =~= seq!['{', '#']) by {
        assert(body[x + p] == t[p]);
        assert(body[x + p + 1] == t[p + 1]);
    }
    assert(occurs_at(body, seq!['{', '#'], x + p));
}

proof fn lemma_run_end(s: Seq<char>, i: int, c: char)
    requires
        0 <= i <= s.len(),
    ensures
        i <= run_end(s, i, c) <= s.len(),
        forall|x: int| i <= x < run_end(s, i, c) ==> #[trigger] s[x] == c,
        run_end(s, i, c) == s.len() || s[run_end(s, i, c)] != c,
    decreases s.len() - i,
{
    if i < s.len() && s[i] == c {
        lemma_run_end(s, i + 1, c);
    }
}

proof fn lemma_ws_end_agree(s1: Seq<char>, s2: Seq<char>, i: int, k: int)
    requires
        0 <= i <= k,
        k < s1.len(),
        k < s2.len(),
        forall|j: int| i <= j <= k ==> #[trigger] s1[j] == s2[j],
        ws_end(s1, i) == k,
    ensures
        ws_end(s2, i) == k,
    decreases k - i,
{
    lemma_ws_end(s1, i);
    if i < k {
        assert(is_ws(s1[i]));
        lemma_ws_end_agree(s1, s2, i + 1, k);
    } else {
        assert(!is_ws(s1[k]));
    }
}

proof fn lemma_run_end_agree(s1: Seq<char>, s2: Seq<char>, i: int, h: int, c: char)
    requires
        0 <= i <= h < s2.len(),
        forall|j: int| i <= j < h ==> #[trigger] s2[j] == c,
        s2[h] != c,
    ensures
        run_end(s2, i, c) == h,
    decreases h - i,
{
    if i < h {
        lemma_run_end_agree(s1, s2, i + 1, h, c);
    }
}

proof fn lemma_ws_back_at(s: Seq<char>, j: int, lo: int, x: int)
    requires
        0 <= lo <= x <= j <= s.len(),
        forall|m: int| x <= m < j ==> is_ws(#[trigger] s[m]),
        x == lo || !is_ws(s[x - 1]),
    ensures
        ws_back(s, j, lo) == x,
    decreases j - lo,
{
    if j > x {
        lemma_ws_back_at(s, j - 1, lo, x);
    }
}

/// A heading line whose text holds no `{#` reads, once anchored with a
/// plain id, as a heading of the same level with that id; and it opens no
/// code fence.
#[verifier::spinoff_prover]
#[verifier::rlimit(50)]
pub proof fn lemma_anchored_heading(l: Seq<char>, id: Seq<char>)
    requires
        parse_atx_heading_spec(l).is_some(),
        plain_id(id),
        !contains(trim_eol(l), seq!['{', '#']),
    ensures
        parse_atx_heading_spec(anchored_line(l, id)) matches Some((level, _, Some(i))) && (
        parse_atx_heading_spec(l) matches Some((level0, _, _)) && level == level0) && i == id,
        opening_fence_spec(anchored_line(l, id)).is_none(),
{
    let n = l.len() as int;
    let k = ws_end(l, 0);
    let h = run_end(l, k, '#');
    lemma_ws_end(l, 0);
    lemma_run_end(l, k, '#');
    lemma_eol_back(l, n);
    let b = eol_back(l, n);
    let body = trim_eol(l);
    assert(body =~= l.subrange(0, b));
    assert(h <= b) by {
        if h > b {
            assert(l[h - 1] == '#');
            assert(is_eol(l[h - 1]));
        }
    }
    let e = line_ending(l);
    let z = seq![' ', '{', '#'] + id + seq!['}'];
    let a = anchored_line(l, id);
    assert(a == body + z + e);
    assert(a =~= body + (z + e));
    assert forall|j: int| 0 <= j < b implies #[trigger] a[j] == l[j] by {
        assert(a[j] == body[j]);
    }
    assert(a[b] == ' ');
    // the heading marks read the same
    lemma_ws_end_agree(l, a, 0, k);
    lemma_run_end_agree(l, a, k, h, '#');
    assert(a.take(k) =~= l.take(k));
    assert(over_indented(a) == over_indented(l));
    assert(is_ws(a[h])) by {
        if h < b {
            assert(a[h] == l[h]);
        }
    }
    // what follows the marks
    let w = a.subrange(h, a.len() as int);
    let mlen = b - h;
    assert forall|j: int| 0 <= j < mlen implies #[trigger] w[j] == l[h + j] by {
        assert(w[j] == a[h + j]);
    }
    assert(w[mlen] == ' ' && w[mlen + 1] == '{' && w[mlen + 2] == '#');
    assert forall|j: int| 0 <= j < id.len() implies #[trigger] w[mlen + 3 + j] == id[j] by {
        assert(w[mlen + 3 + j] == a[b + 3 + j]);
        assert(a[b + 3 + j] == z[3 + j]);
    }
    let close = mlen + 3 + id.len();
    assert(w[close] == '}');
    assert(w.len() == close + 1 + e.len());
    assert forall|j: int| close < j < w.len() implies is_ws(#[trigger] w[j]) by {
        assert(w[j] == e[j - close - 1]);
    }
    lemma_ws_end(w, 0);
    let a1 = ws_end(w, 0);
    assert(a1 <= mlen + 1) by {
        if a1 > mlen + 1 {
            assert(is_ws(w[mlen + 1]));
        }
    }
    lemma_ws_back_at(w, w.len() as int, a1, close + 1);
    let t = w.subrange(a1, close + 1);
    assert(t == trim(w));
    assert(t.last() == '}');
    assert(run_back(t, t.len() as int, 0, '#') == t.len());
    assert(trim_end_char(t, '#') =~= t);
    assert(!is_ws(t[0]));
    lemma_trim_fixed(t);
    let q = mlen + 1 - a1;
    assert(t[q] == '{' && t[q + 1] == '#');
    assert forall|i: int| q < i <= t.len() - 1 implies !(i + 1 < t.len() && #[trigger] t[i] == '{'
        && t[i + 1] == '#') by {
        if q + 2 <= i < t.len() - 1 {
            assert(t[i] == w[a1 + i]);
            assert(t[i] == id[i - q - 2]);
        }
    }
    lemma_last_id_open_at(t, q, t.len() - 1);
    let inner = t.subrange(q + 2, t.len() - 1);
    assert(inner =~= id);
    lemma_trim_fixed(id);
    assert(split_heading_id(t).1 == Some(id));
    // no code fence opens
    assert(a[k] == '#');
}

} // verus!
