//! The flat list of Markdown files of a folder, ordered by path.

use vstd::prelude::*;
use crate::text::{chars_of, lower, lower_chars};
use crate::tree::{chars_lt, lex_lt};
use crate::tree_laws::lemma_lex_order;

verus! {

/// A Markdown file of a folder listing.
#[derive(Clone, Debug)]
pub struct MarkdownFile {
    pub path: String,
    pub name: String,
    /// Path below the folder, components joined by `'/'`.
    pub relative_path: String,
    /// Number of directories between the folder and the file.
    pub depth: usize,
}

pub struct MarkdownFileView {
    pub path: Seq<char>,
    pub name: Seq<char>,
    pub relative_path: Seq<char>,
    pub depth: nat,
}

impl View for MarkdownFile {
    type V = MarkdownFileView;

    open spec fn view(&self) -> MarkdownFileView {
        MarkdownFileView {
            path: self.path@,
            name: self.name@,
            relative_path: self.relative_path@,
            depth: self.depth as nat,
        }
    }
}

pub open spec fn listing_view(v: Seq<MarkdownFile>) -> Seq<MarkdownFileView> {
    v.map_values(|f: MarkdownFile| f@)
}

/// The key a listing is ordered by: the lowercased relative path.
pub open spec fn listing_key(f: MarkdownFileView) -> Seq<char> {
    lower(f.relative_path)
}

/// Where `f` goes in `s`: before the first entry whose key sorts after its own.
pub open spec fn listing_slot(s: Seq<MarkdownFileView>, f: MarkdownFileView, i: int) -> int
    decreases s.len() - i,
{
    if 0 <= i < s.len() {
        if lex_lt(listing_key(f), listing_key(s[i])) {
            i
        } else {
            listing_slot(s, f, i + 1)
        }
    } else {
        s.len() as int
    }
}

/// `s` ordered by key, entries with equal keys in their order in `s`.
pub open spec fn sorted_listing(s: Seq<MarkdownFileView>) -> Seq<MarkdownFileView>
    decreases s.len(),
{
    if s.len() == 0 {
        seq![]
    } else {
        let t = sorted_listing(s.drop_last());
        t.insert(listing_slot(t, s.last(), 0), s.last())
    }
}

pub open spec fn ordered_by_key(s: Seq<MarkdownFileView>) -> bool {
    forall|i: int, j: int|
        0 <= i < j < s.len() ==> !lex_lt(listing_key(#[trigger] s[j]), listing_key(#[trigger] s[i]))
}

proof fn lemma_listing_slot(s: Seq<MarkdownFileView>, f: MarkdownFileView, i: int)
    requires
        0 <= i <= s.len(),
        forall|k: int| 0 <= k < i ==> !lex_lt(listing_key(f), listing_key(#[trigger] s[k])),
    ensures
        i <= listing_slot(s, f, i) <= s.len(),
        forall|k: int|
            0 <= k < listing_slot(s, f, i) ==> !lex_lt(listing_key(f), listing_key(#[trigger] s[k])),
        listing_slot(s, f, i) < s.len() ==> lex_lt(listing_key(f), listing_key(s[listing_slot(s, f, i)])),
    decreases s.len() - i,
{
    if i < s.len() && !lex_lt(listing_key(f), listing_key(s[i])) {
        lemma_listing_slot(s, f, i + 1);
    }
}

/// Sorting a listing yields the same entries, ordered by key.
pub proof fn lemma_sorted_listing(s: Seq<MarkdownFileView>)
    ensures
        ordered_by_key(sorted_listing(s)),
        sorted_listing(s).to_multiset() == s.to_multiset(),
        sorted_listing(s).len() == s.len(),
    decreases s.len(),
{
    broadcast use vstd::seq_lib::group_to_multiset_ensures;

    if s.len() == 0 {
        assert(sorted_listing(s) =~= s);
    } else {
        let t = sorted_listing(s.drop_last());
        lemma_sorted_listing(s.drop_last());
        let f = s.last();
        lemma_listing_slot(t, f, 0);
        let p = listing_slot(t, f, 0);
        let r = t.insert(p, f);
        assert(s =~= s.drop_last().push(f));
        assert forall|i: int, j: int| 0 <= i < j < r.len() implies !lex_lt(
            listing_key(#[trigger] r[j]),
            listing_key(#[trigger] r[i]),
        ) by {
            if j < p {
                assert(r[i] == t[i] && r[j] == t[j]);
            } else if j == p {
                assert(r[j] == f && r[i] == t[i]);
            } else if i == p {
                assert(r[i] == f && r[j] == t[j - 1]);
                if j - 1 > p {
                    assert(!lex_lt(listing_key(t[j - 1]), listing_key(t[p])));
                }
                lemma_lex_order(listing_key(t[j - 1]), listing_key(f), listing_key(t[p]));
            } else if i < p {
                assert(r[i] == t[i] && r[j] == t[j - 1]);
            } else {
                assert(r[i] == t[i - 1] && r[j] == t[j - 1]);
            }
        }
    }
}

/// `sort_unstable_by_key(|file| file.relative_path.to_ascii_lowercase())`:
/// the listing ordered by lowercased relative path; entries with equal keys
/// keep their order.
pub fn sort_markdown_files(files: Vec<MarkdownFile>) -> (r: Vec<MarkdownFile>)
    ensures
        listing_view(r@) == sorted_listing(listing_view(files@)),
        ordered_by_key(listing_view(r@)),
        listing_view(r@).to_multiset() == listing_view(files@).to_multiset(),
{
    let ghost input = listing_view(files@);
    let mut out: Vec<MarkdownFile> = Vec::new();
    let mut keys: Vec<Vec<char>> = Vec::new();
    let mut k: usize = 0;
    while k < files.len()
        invariant
            k <= files@.len(),
            input == listing_view(files@),
            listing_view(out@) == sorted_listing(input.take(k as int)),
            keys@.len() == out@.len(),
            forall|i: int| 0 <= i < keys@.len() ==> #[trigger] keys@[i]@ == listing_key(out@[i]@),
        decreases files@.len() - k,
    {
        let f = MarkdownFile {
            path: files[k].path.clone(),
            name: files[k].name.clone(),
            relative_path: files[k].relative_path.clone(),
            depth: files[k].depth,
        };
        let key = lower_chars(chars_of(f.relative_path.as_str()).as_slice());
        let ghost t = listing_view(out@);
        let mut slot: usize = 0;
        while slot < out.len() && !chars_lt(key.as_slice(), keys[slot].as_slice())
            invariant
                slot <= out@.len(),
                t == listing_view(out@),
                keys@.len() == out@.len(),
                forall|i: int| 0 <= i < keys@.len() ==> #[trigger] keys@[i]@ == listing_key(out@[i]@),
                key@ == listing_key(f@),
                listing_slot(t, f@, 0) == listing_slot(t, f@, slot as int),
            decreases out@.len() - slot,
        {
            slot = slot + 1;
        }
        assert(slot as int == listing_slot(t, f@, slot as int));
        assert(input.take(k + 1).drop_last() =~= input.take(k as int));
        assert(input.take(k + 1).last() == f@);
        let ghost before_keys = keys@;
        let ghost fv = f@;
        out.insert(slot, f);
        keys.insert(slot, key);
        assert(listing_view(out@) =~= t.insert(slot as int, fv));
        assert forall|i: int| 0 <= i < keys@.len() implies #[trigger] keys@[i]@ == listing_key(out@[i]@) by {
            if i < slot {
                assert(keys@[i] == before_keys[i]);
            } else if i > slot {
                assert(keys@[i] == before_keys[i - 1]);
            }
        }
        k = k + 1;
    }
    assert(input.take(k as int) =~= input);
    proof {
        lemma_sorted_listing(input);
    }
    out
}

} // verus!
