//! Splitting text into lines the way `str::split_inclusive('\n')` does.

use vstd::prelude::*;

verus! {

/// First index at or after `i` that holds `'\n'`, or the length.
pub open spec fn newline_from(s: Seq<char>, i: int) -> int
    decreases s.len() - i,
{
    if 0 <= i < s.len() && s[i] != '\n' {
        newline_from(s, i + 1)
    } else {
        i
    }
}

/// End of the line that starts at `i`: just past its `'\n'`, or the end of
/// the text for a last line without one.
pub open spec fn line_end(s: Seq<char>, i: int) -> int {
    let n = newline_from(s, i);
    if n < s.len() {
        n + 1
    } else {
        n
    }
}

pub proof fn lemma_newline_from(s: Seq<char>, i: int)
    requires
        0 <= i <= s.len(),
    ensures
        i <= newline_from(s, i) <= s.len(),
        newline_from(s, i) < s.len() ==> s[newline_from(s, i)] == '\n',
        forall|k: int| i <= k < newline_from(s, i) ==> #[trigger] s[k] != '\n',
    decreases s.len() - i,
{
    if i < s.len() && s[i] != '\n' {
        lemma_newline_from(s, i + 1);
    }
}

pub proof fn lemma_line_end(s: Seq<char>, i: int)
    requires
        0 <= i < s.len(),
    ensures
        i < line_end(s, i) <= s.len(),
{
    lemma_newline_from(s, i);
}

/// The lines of `s` from position `i` on, each with its `'\n'`.
pub open spec fn lines_from(s: Seq<char>, i: int) -> Seq<Seq<char>>
    decreases s.len() - i,
{
    if 0 <= i < s.len() {
        proof {
            lemma_line_end(s, i);
        }
        seq![s.subrange(i, line_end(s, i))] + lines_from(s, line_end(s, i))
    } else {
        seq![]
    }
}

/// End of the line that starts at `i`.
pub fn next_line_end(s: &[char], i: usize) -> (e: usize)
    requires
        i < s@.len(),
    ensures
        e == line_end(s@, i as int),
        i < e <= s@.len(),
{
    let mut j = i;
    while j < s.len() && s[j] != '\n'
        invariant
            i <= j <= s@.len(),
            newline_from(s@, i as int) == newline_from(s@, j as int),
        decreases s@.len() - j,
    {
        j = j + 1;
    }
    if j < s.len() {
        j + 1
    } else {
        j
    }
}

} // verus!
