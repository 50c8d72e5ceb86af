//! When two Unix paths name the same path component by component, the
//! way `Path` compares them: repeated separators, `.` components after
//! the first and a trailing separator make no difference.

use vstd::prelude::*;
use crate::text::{chars_eq, chars_of};

verus! {

/// First index at or after `i` that holds `'/'`, or the length.
pub open spec fn slash_from(s: Seq<char>, i: int) -> int
    decreases s.len() - i,
{
    if 0 <= i < s.len() && s[i] != '/' {
        slash_from(s, i + 1)
    } else {
        i
    }
}

pub proof fn lemma_slash_from(s: Seq<char>, i: int)
    requires
        0 <= i <= s.len(),
    ensures
        i <= slash_from(s, i) <= s.len(),
    decreases s.len() - i,
{
    if i < s.len() && s[i] != '/' {
        lemma_slash_from(s, i + 1);
    }
}

/// A segment between separators that names no component: empty, or `.`.
pub open spec fn is_skipped_segment(seg: Seq<char>) -> bool {
    seg.len() == 0 || seg == seq!['.']
}

/// The named components of `s` from position `i` on: the segments
/// between `'/'` separators, without empty and `.` segments.
pub open spec fn parts_from(s: Seq<char>, i: int) -> Seq<Seq<char>>
    decreases s.len() - i,
{
    if 0 <= i < s.len() {
        proof {
            lemma_slash_from(s, i);
        }
        let e = slash_from(s, i);
        let seg = s.subrange(i, e);
        let rest = if e < s.len() {
            parts_from(s, e + 1)
        } else {
            seq![]
        };
        if is_skipped_segment(seg) {
            rest
        } else {
            seq![seg] + rest
        }
    } else {
        seq![]
    }
}

/// The path starts at the root.
pub open spec fn has_root(s: Seq<char>) -> bool {
    s.len() > 0 && s[0] == '/'
}

/// A relative path that starts with a `.` component keeps it.
pub open spec fn starts_at_cur_dir(s: Seq<char>) -> bool {
    s.len() > 0 && s[0] == '.' && (s.len() == 1 || s[1] == '/')
}

/// The components of a path: whether it starts at the root, whether it
/// starts with `.`, and its named components.
pub open spec fn path_components(s: Seq<char>) -> (bool, bool, Seq<Seq<char>>) {
    (has_root(s), starts_at_cur_dir(s), parts_from(s, 0))
}

/// Two paths are the same path.
pub open spec fn same_path_spec(a: Seq<char>, b: Seq<char>) -> bool {
    path_components(a) == path_components(b)
}

pub open spec fn parts_view(v: Seq<Vec<char>>) -> Seq<Seq<char>> {
    v.map_values(|x: Vec<char>| x@)
}

fn path_parts(s: &[char]) -> (r: Vec<Vec<char>>)
    ensures
        parts_view(r@) == parts_from(s@, 0),
{
    let mut r: Vec<Vec<char>> = Vec::new();
    let mut i: usize = 0;
    while i < s.len()
        invariant
            i <= s@.len(),
            parts_view(r@) + parts_from(s@, i as int) == parts_from(s@, 0),
        decreases s@.len() - i,
    {
        let mut e = i;
        while e < s.len() && s[e] != '/'
            invariant
                i <= e <= s@.len(),
                slash_from(s@, i as int) == slash_from(s@, e as int),
            decreases s@.len() - e,
        {
            e = e + 1;
        }
        let mut seg: Vec<char> = Vec::new();
        let mut k = i;
        while k < e
            invariant
                i <= k <= e <= s@.len(),
                seg@ == s@.subrange(i as int, k as int),
            decreases e - k,
        {
            seg.push(s[k]);
            k = k + 1;
        }
        let skipped = seg.len() == 0 || (seg.len() == 1 && seg[0] == '.');
        assert(skipped == is_skipped_segment(seg@)) by {
            if seg@.len() == 1 && seg@[0] == '.' {
                assert(seg@ =~= seq!['.']);
            }
        }
        assert(e as int == slash_from(s@, i as int));
        let ghost before = r@;
        let ghost start = i as int;
        if !skipped {
            r.push(seg);
            assert(parts_view(r@) =~= parts_view(before).push(seg@));
        }
        if e < s.len() {
            i = e + 1;
        } else {
            i = e;
        }
        assert(parts_from(s@, start) == if is_skipped_segment(seg@) {
            parts_from(s@, i as int)
        } else {
            seq![seg@] + parts_from(s@, i as int)
        });
        assert(parts_view(r@) + parts_from(s@, i as int) =~= parts_view(before) + parts_from(
            s@,
            start,
        ));
    }
    r
}

/// Whether the paths `a` and `b` name the same path, component by
/// component.
pub fn same_path(a: &str, b: &str) -> (r: bool)
    ensures
        r == same_path_spec(a@, b@),
{
    let ca = chars_of(a);
    let cb = chars_of(b);
    let root_a = ca.len() > 0 && ca[0] == '/';
    let root_b = cb.len() > 0 && cb[0] == '/';
    let cur_a = ca.len() > 0 && ca[0] == '.' && (ca.len() == 1 || ca[1] == '/');
    let cur_b = cb.len() > 0 && cb[0] == '.' && (cb.len() == 1 || cb[1] == '/');
    if root_a != root_b || cur_a != cur_b {
        return false;
    }
    let pa = path_parts(ca.as_slice());
    let pb = path_parts(cb.as_slice());
    if pa.len() != pb.len() {
        assert(parts_view(pa@).len() != parts_view(pb@).len());
        return false;
    }
    let mut i: usize = 0;
    while i < pa.len()
        invariant
            pa@.len() == pb@.len(),
            i <= pa@.len(),
            parts_view(pa@) == parts_from(a@, 0),
            parts_view(pb@) == parts_from(b@, 0),
            forall|k: int| 0 <= k < i ==> parts_view(pa@)[k] == parts_view(pb@)[k],
        decreases pa@.len() - i,
    {
        if !chars_eq(pa[i].as_slice(), pb[i].as_slice()) {
            assert(parts_view(pa@)[i as int] != parts_view(pb@)[i as int]);
            assert(parts_view(pa@) != parts_view(pb@));
            return false;
        }
        i = i + 1;
    }
    assert(parts_view(pa@) =~= parts_view(pb@));
    true
}

} // verus!
