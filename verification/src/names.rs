//! Rules on file names: which files are Markdown documents, how their names
//! are shown, and which directory entries a workspace scan visits.

use vstd::prelude::*;
use crate::text::{chars_eq, chars_of, lower, lower_chars};

verus! {

/// The extensions of Markdown documents, in lower case.
pub open spec fn markdown_extensions() -> Seq<Seq<char>> {
    seq![
        seq!['m', 'd'],
        seq!['m', 'a', 'r', 'k', 'd', 'o', 'w', 'n'],
        seq!['m', 'd', 'o', 'w', 'n'],
        seq!['m', 'k', 'd'],
        seq!['m', 'd', 'x'],
        seq!['t', 'x', 't'],
    ]
}

/// `e` is a Markdown extension, ignoring ASCII case.
pub open spec fn is_markdown_extension(e: Seq<char>) -> bool {
    exists|i: int| 0 <= i < markdown_extensions().len() && lower(e) == #[trigger] markdown_extensions()[i]
}

/// Index of the last `'.'` before position `j`, or -1.
pub open spec fn last_dot(s: Seq<char>, j: int) -> int
    decreases j,
{
    if j <= 0 || j > s.len() {
        -1
    } else if s[j - 1] == '.' {
        j - 1
    } else {
        last_dot(s, j - 1)
    }
}

/// `Path::extension` of a file name: what follows its last `'.'`, unless the
/// name has no `'.'`, starts with its only `'.'`, or is `".."`.
pub open spec fn file_extension_spec(name: Seq<char>) -> Option<Seq<char>> {
    let d = last_dot(name, name.len() as int);
    if name == seq!['.', '.'] || d <= 0 {
        None
    } else {
        Some(name.subrange(d + 1, name.len() as int))
    }
}

/// A file name with a Markdown extension.
pub open spec fn is_markdown_spec(name: Seq<char>) -> bool {
    match file_extension_spec(name) {
        Some(e) => is_markdown_extension(e),
        None => false,
    }
}

/// A file name without its extension when that extension is a Markdown one
/// (split at the last `'.'`, so `".md"` gives `""`); otherwise the name.
pub open spec fn strip_markdown_extension_spec(name: Seq<char>) -> Seq<char> {
    let d = last_dot(name, name.len() as int);
    if d >= 0 && is_markdown_extension(name.subrange(d + 1, name.len() as int)) {
        name.subrange(0, d)
    } else {
        name
    }
}

pub proof fn lemma_last_dot(s: Seq<char>, j: int)
    requires
        0 <= j <= s.len(),
    ensures
        -1 <= last_dot(s, j) < j,
        last_dot(s, j) >= 0 ==> s[last_dot(s, j)] == '.',
        forall|k: int| last_dot(s, j) < k < j ==> #[trigger] s[k] != '.',
    decreases j,
{
    if j > 0 && s[j - 1] != '.' {
        lemma_last_dot(s, j - 1);
    }
}

fn last_dot_exec(s: &[char]) -> (r: Option<usize>)
    ensures
        match r {
            Some(d) => d as int == last_dot(s@, s@.len() as int) && d < s@.len(),
            None => last_dot(s@, s@.len() as int) < 0,
        },
{
    let mut j = s.len();
    while j > 0
        invariant
            j <= s@.len(),
            last_dot(s@, s@.len() as int) == last_dot(s@, j as int),
        decreases j,
    {
        if s[j - 1] == '.' {
            return Some(j - 1);
        }
        j = j - 1;
    }
    None
}

fn extension_list() -> (r: Vec<Vec<char>>)
    ensures
        r@.len() == markdown_extensions().len(),
        forall|i: int| 0 <= i < r@.len() ==> #[trigger] r@[i]@ == markdown_extensions()[i],
{
    let r = vec![
        vec!['m', 'd'],
        vec!['m', 'a', 'r', 'k', 'd', 'o', 'w', 'n'],
        vec!['m', 'd', 'o', 'w', 'n'],
        vec!['m', 'k', 'd'],
        vec!['m', 'd', 'x'],
        vec!['t', 'x', 't'],
    ];
    assert(r@[0]@ =~= markdown_extensions()[0]);
    assert(r@[1]@ =~= markdown_extensions()[1]);
    assert(r@[2]@ =~= markdown_extensions()[2]);
    assert(r@[3]@ =~= markdown_extensions()[3]);
    assert(r@[4]@ =~= markdown_extensions()[4]);
    assert(r@[5]@ =~= markdown_extensions()[5]);
    r
}

/// Whether `e` is a Markdown extension, ignoring ASCII case.
pub fn is_markdown_extension_chars(e: &[char]) -> (r: bool)
    ensures
        r == is_markdown_extension(e@),
{
    let low = lower_chars(e);
    let list = extension_list();
    let mut i: usize = 0;
    while i < list.len()
        invariant
            i <= list@.len(),
            list@.len() == markdown_extensions().len(),
            forall|k: int| 0 <= k < list@.len() ==> #[trigger] list@[k]@ == markdown_extensions()[k],
            low@ == lower(e@),
            forall|k: int| 0 <= k < i ==> lower(e@) != #[trigger] markdown_extensions()[k],
        decreases list@.len() - i,
    {
        if chars_eq(low.as_slice(), list[i].as_slice()) {
            assert(lower(e@) == markdown_extensions()[i as int]);
            return true;
        }
        i = i + 1;
    }
    false
}

/// `Path::extension` on the chars of a file name, as a range of `name`.
pub fn file_extension_chars(name: &[char]) -> (r: Option<usize>)
    ensures
        match r {
            Some(a) => a <= name@.len() && file_extension_spec(name@) == Some(
                name@.subrange(a as int, name@.len() as int),
            ),
            None => file_extension_spec(name@).is_none(),
        },
{
    let dotdot = vec!['.', '.'];
    if chars_eq(name, dotdot.as_slice()) {
        assert(name@ =~= seq!['.', '.']);
        return None;
    }
    assert(name@ != seq!['.', '.']) by {
        if name@ =~= seq!['.', '.'] {
            assert(dotdot@ =~= name@);
        }
    }
    let n = name.len();
    match last_dot_exec(name) {
        Some(d) => {
            if d == 0 {
                None
            } else {
                Some(d + 1)
            }
        },
        None => None,
    }
}

/// `is_markdown`: whether a file, by its name (the last component of its
/// path), is a Markdown document.
pub fn is_markdown(file_name: &str) -> (r: bool)
    ensures
        r == is_markdown_spec(file_name@),
{
    let name = chars_of(file_name);
    match file_extension_chars(name.as_slice()) {
        Some(a) => is_markdown_extension_chars(&name.as_slice()[a..name.len()]),
        None => false,
    }
}

/// `strip_markdown_extension`: the name a document is shown under.
pub fn strip_markdown_extension(name: &str) -> (r: &str)
    ensures
        r@ == strip_markdown_extension_spec(name@),
{
    let chars = chars_of(name);
    let n = chars.len();
    match last_dot_exec(chars.as_slice()) {
        Some(d) => {
            if is_markdown_extension_chars(&chars.as_slice()[d + 1..n]) {
                name.substring_char(0, d)
            } else {
                name
            }
        },
        None => name,
    }
}

/// The shown name of a Markdown document is its name without exactly its
/// extension and the `'.'` before it.
pub proof fn lemma_strip_removes_extension(name: Seq<char>)
    requires
        is_markdown_spec(name),
    ensures
        name == strip_markdown_extension_spec(name) + seq!['.'] + file_extension_spec(name).unwrap(),
        strip_markdown_extension_spec(name).len() < name.len(),
{
    let d = last_dot(name, name.len() as int);
    lemma_last_dot(name, name.len() as int);
    assert(name =~= name.subrange(0, d) + seq!['.'] + name.subrange(d + 1, name.len() as int));
}

/// Names of directories a workspace scan never enters.
pub open spec fn skipped_directories() -> Seq<Seq<char>> {
    seq![
        seq!['n', 'o', 'd', 'e', '_', 'm', 'o', 'd', 'u', 'l', 'e', 's'],
        seq!['t', 'a', 'r', 'g', 'e', 't'],
        seq!['d', 'i', 's', 't'],
        seq!['b', 'u', 'i', 'l', 'd'],
        seq!['v', 'e', 'n', 'd', 'o', 'r'],
    ]
}

/// A directory entry a scan visits: the root itself, and below it every
/// entry whose name neither starts with `'.'` nor names a build or
/// dependency directory.
pub open spec fn is_visible_entry_spec(depth: nat, name: Seq<char>) -> bool {
    depth == 0 || (!(name.len() > 0 && name[0] == '.') && !skipped_directories().contains(name))
}

/// `is_visible_entry`, on the depth and file name of a directory entry.
pub fn is_visible_entry(depth: usize, name: &str) -> (r: bool)
    ensures
        r == is_visible_entry_spec(depth as nat, name@),
{
    if depth == 0 {
        return true;
    }
    let chars = chars_of(name);
    if chars.len() > 0 && chars[0] == '.' {
        return false;
    }
    let list = vec![
        vec!['n', 'o', 'd', 'e', '_', 'm', 'o', 'd', 'u', 'l', 'e', 's'],
        vec!['t', 'a', 'r', 'g', 'e', 't'],
        vec!['d', 'i', 's', 't'],
        vec!['b', 'u', 'i', 'l', 'd'],
        vec!['v', 'e', 'n', 'd', 'o', 'r'],
    ];
    assert(list@[0]@ =~= skipped_directories()[0]);
    assert(list@[1]@ =~= skipped_directories()[1]);
    assert(list@[2]@ =~= skipped_directories()[2]);
    assert(list@[3]@ =~= skipped_directories()[3]);
    assert(list@[4]@ =~= skipped_directories()[4]);
    let mut i: usize = 0;
    while i < list.len()
        invariant
            i <= list@.len(),
            list@.len() == skipped_directories().len(),
            forall|k: int| 0 <= k < list@.len() ==> #[trigger] list@[k]@ == skipped_directories()[k],
            chars@ == name@,
            depth != 0,
            !(name@.len() > 0 && name@[0] == '.'),
            forall|k: int| 0 <= k < i ==> name@ != #[trigger] skipped_directories()[k],
        decreases list@.len() - i,
    {
        if chars_eq(chars.as_slice(), list[i].as_slice()) {
            assert(skipped_directories()[i as int] == name@);
            assert(skipped_directories().contains(name@));
            return false;
        }
        i = i + 1;
    }
    true
}

} // verus!
