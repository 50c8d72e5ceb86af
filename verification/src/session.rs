//! Reader session state that outlives a single document: the list of
//! recently opened documents, and which background load is current.

use vstd::prelude::*;
use crate::names::{is_markdown, is_markdown_spec};
use crate::paths::{same_path, same_path_spec};

verus! {

/// Most documents the recent list keeps.
pub const MAX_RECENTS: usize = 10;

/// A recently opened document.
#[derive(Clone, Debug)]
pub struct RecentDocument {
    pub path: String,
    pub name: String,
}

pub struct RecentView {
    pub path: Seq<char>,
    pub name: Seq<char>,
}

impl View for RecentDocument {
    type V = RecentView;

    open spec fn view(&self) -> RecentView {
        RecentView { path: self.path@, name: self.name@ }
    }
}

pub open spec fn recents_view(v: Seq<RecentDocument>) -> Seq<RecentView> {
    v.map_values(|r: RecentDocument| r@)
}

/// The entries of `s` whose path is not the same path as `path`, in order.
pub open spec fn without_path(s: Seq<RecentView>, path: Seq<char>) -> Seq<RecentView>
    decreases s.len(),
{
    if s.len() == 0 {
        seq![]
    } else if same_path_spec(s.last().path, path) {
        without_path(s.drop_last(), path)
    } else {
        without_path(s.drop_last(), path).push(s.last())
    }
}

/// The recent list after opening `opened`: it comes first, any earlier
/// entry for the same path is dropped, and the list keeps at most
/// [`MAX_RECENTS`] entries.
pub open spec fn remembered(s: Seq<RecentView>, opened: RecentView) -> Seq<RecentView> {
    let l = seq![opened] + without_path(s, opened.path);
    if l.len() <= MAX_RECENTS {
        l
    } else {
        l.take(MAX_RECENTS as int)
    }
}

/// `remember_recent`: records that the document at `path`, named `name`,
/// was opened.
pub fn remember_recent(recents: &mut Vec<RecentDocument>, path: &str, name: &str)
    ensures
        recents_view(final(recents)@) == remembered(
            recents_view(old(recents)@),
            RecentView { path: path@, name: name@ },
        ),
{
    let ghost old_v = recents_view(recents@);
    let mut kept: Vec<RecentDocument> = Vec::new();
    let mut i: usize = 0;
    while i < recents.len()
        invariant
            i <= recents@.len(),
            old_v == recents_view(recents@),
            recents_view(kept@) == without_path(old_v.take(i as int), path@),
        decreases recents@.len() - i,
    {
        let same = same_path(recents[i].path.as_str(), path);
        assert(old_v.take(i + 1).drop_last() =~= old_v.take(i as int));
        if !same {
            let r = RecentDocument { path: recents[i].path.clone(), name: recents[i].name.clone() };
            let ghost before = kept@;
            kept.push(r);
            assert(recents_view(kept@) =~= recents_view(before).push(old_v[i as int]));
        }
        i = i + 1;
    }
    assert(old_v.take(i as int) =~= old_v);
    let opened = RecentDocument { path: String::from_str(path), name: String::from_str(name) };
    let ghost kept_v = recents_view(kept@);
    kept.insert(0, opened);
    assert(recents_view(kept@) =~= seq![opened@] + kept_v);
    let ghost full = recents_view(kept@);
    kept.truncate(MAX_RECENTS);
    assert(recents_view(kept@) =~= remembered(old_v, RecentView { path: path@, name: name@ }));
    *recents = kept;
}

/// No path occurs twice.
pub open spec fn unique_paths(s: Seq<RecentView>) -> bool {
    forall|i: int, j: int|
        0 <= i < j < s.len() ==> !same_path_spec((#[trigger] s[i]).path, (#[trigger] s[j]).path)
}

proof fn lemma_without_path(s: Seq<RecentView>, path: Seq<char>)
    ensures
        forall|k: int|
            0 <= k < without_path(s, path).len() ==> !same_path_spec(
                (#[trigger] without_path(s, path)[k]).path,
                path,
            ) && s.contains(without_path(s, path)[k]),
        without_path(s, path).len() <= s.len(),
        unique_paths(s) ==> unique_paths(without_path(s, path)),
    decreases s.len(),
{
    if s.len() > 0 {
        let t = s.drop_last();
        lemma_without_path(t, path);
        let w = without_path(t, path);
        assert forall|k: int| 0 <= k < w.len() implies s.contains(#[trigger] w[k]) by {
            assert(t.contains(w[k]));
            let m = choose|m: int| 0 <= m < t.len() && t[m] == w[k];
            assert(s[m] == w[k]);
        }
        if !same_path_spec(s.last().path, path) {
            let r = w.push(s.last());
            assert forall|k: int| 0 <= k < r.len() implies !same_path_spec((#[trigger] r[k]).path, path) && s.contains(r[k]) by {
                if k < w.len() {
                    assert(r[k] == w[k]);
                } else {
                    assert(s[s.len() - 1] == r[k]);
                }
            }
            if unique_paths(s) {
                assert(unique_paths(t));
                assert forall|i: int, j: int| 0 <= i < j < r.len() implies !same_path_spec((#[trigger] r[i]).path, (#[trigger] r[j]).path) by {
                    if j == w.len() {
                        assert(r[i] == w[i]);
                        let m = choose|m: int| 0 <= m < t.len() && t[m] == w[i];
                        assert(s[m] == w[i]);
                        assert(s[s.len() - 1] == r[j]);
                    } else {
                        assert(r[i] == w[i] && r[j] == w[j]);
                    }
                }
            }
        } else {
            if unique_paths(s) {
                assert(unique_paths(t));
            }
        }
    }
}

/// After a document is remembered it comes first, no other entry has the
/// same path,
/// the list holds at most [`MAX_RECENTS`] entries, and a list whose paths
/// were distinct keeps them distinct.
pub proof fn lemma_remembered(s: Seq<RecentView>, opened: RecentView)
    ensures
        remembered(s, opened).len() >= 1,
        remembered(s, opened)[0] == opened,
        remembered(s, opened).len() <= MAX_RECENTS,
        forall|k: int|
            1 <= k < remembered(s, opened).len() ==> !same_path_spec(
                (#[trigger] remembered(s, opened)[k]).path,
                opened.path,
            ),
        unique_paths(s) ==> unique_paths(remembered(s, opened)),
{
    lemma_without_path(s, opened.path);
    let w = without_path(s, opened.path);
    let l = seq![opened] + w;
    let r = remembered(s, opened);
    assert forall|k: int| 1 <= k < r.len() implies !same_path_spec((#[trigger] r[k]).path, opened.path) by {
        assert(r[k] == l[k]);
        assert(l[k] == w[k - 1]);
    }
    if unique_paths(s) {
        assert forall|i: int, j: int| 0 <= i < j < r.len() implies !same_path_spec((#[trigger] r[i]).path, (#[trigger] r[j]).path) by {
            assert(r[i] == l[i] && r[j] == l[j]);
            if i > 0 {
                assert(l[i] == w[i - 1] && l[j] == w[j - 1]);
            } else {
                assert(l[j] == w[j - 1]);
            }
        }
    }
}

/// The entries of `s` whose path is not the same path as `path`.
pub open spec fn other_paths(path: Seq<char>) -> spec_fn(RecentView) -> bool {
    |r: RecentView| !same_path_spec(r.path, path)
}

proof fn lemma_without_path_filter(s: Seq<RecentView>, path: Seq<char>)
    ensures
        without_path(s, path) == s.filter(other_paths(path)),
    decreases s.len(),
{
    let p = other_paths(path);
    reveal(Seq::filter);
    if s.len() > 0 {
        lemma_without_path_filter(s.drop_last(), path);
        assert(p(s.last()) == !same_path_spec(s.last().path, path));
        assert(s.filter(p) == if p(s.last()) {
            s.drop_last().filter(p).push(s.last())
        } else {
            s.drop_last().filter(p)
        });
    } else {
        assert(s.filter(p) == s);
        assert(s =~= seq![]);
    }
}

/// Remembering a document loses nothing but what the cap forces: the
/// opened document comes first, followed by every earlier entry of another
/// path, in their order, until the list holds [`MAX_RECENTS`] entries.
pub proof fn lemma_remembered_keeps_others(s: Seq<RecentView>, opened: RecentView)
    ensures
        ({
            let others = s.filter(other_paths(opened.path));
            let n = if 1 + others.len() <= MAX_RECENTS {
                1 + others.len() as int
            } else {
                MAX_RECENTS as int
            };
            &&& remembered(s, opened).len() == n
            &&& remembered(s, opened) == (seq![opened] + others).take(n)
        }),
{
    lemma_without_path_filter(s, opened.path);
    let l = seq![opened] + without_path(s, opened.path);
    if l.len() <= MAX_RECENTS {
        assert(l.take(l.len() as int) =~= l);
    }
}

/// Which background loads are current.  Every request gets a new sequence
/// number; a result is used only when it answers the latest request.
pub struct LoadTracker {
    pub document_sequence: u64,
    pub workspace_sequence: u64,
    /// Path of the document being loaded, if any.
    pub loading_path: Option<String>,
    pub loading_workspace: bool,
}

pub open spec fn opt_chars(o: Option<String>) -> Option<Seq<char>> {
    match o {
        Some(s) => Some(s@),
        None => None,
    }
}

/// The document being loaded is the same path as `path`.
pub open spec fn loading_same_path(o: Option<String>, path: Seq<char>) -> bool {
    match o {
        Some(s) => same_path_spec(s@, path),
        None => false,
    }
}

impl LoadTracker {
    pub fn new() -> (r: LoadTracker)
        ensures
            r.document_sequence == 0,
            r.workspace_sequence == 0,
            r.loading_path.is_none(),
            !r.loading_workspace,
    {
        LoadTracker {
            document_sequence: 0,
            workspace_sequence: 0,
            loading_path: None,
            loading_workspace: false,
        }
    }

    /// Starts loading the document at `path`, unless the same path (compared
    /// component by component) is already being loaded.  Returns the sequence number of the new request.
    pub fn request_document(&mut self, path: &str) -> (r: Option<u64>)
        requires
            old(self).document_sequence < u64::MAX,
        ensures
            loading_same_path(old(self).loading_path, path@) ==> r.is_none() && *final(self)
                == *old(self),
            !loading_same_path(old(self).loading_path, path@) ==> r == Some(
                (old(self).document_sequence + 1) as u64,
            ) && final(self).document_sequence == old(self).document_sequence + 1 && opt_chars(
                final(self).loading_path,
            ) == Some(path@) && final(self).workspace_sequence == old(self).workspace_sequence
                && final(self).loading_workspace == old(self).loading_workspace,
    {
        let same = match &self.loading_path {
            Some(p) => same_path(p.as_str(), path),
            None => false,
        };
        if same {
            return None;
        }
        self.document_sequence = self.document_sequence + 1;
        self.loading_path = Some(String::from_str(path));
        Some(self.document_sequence)
    }

    /// Starts scanning a workspace.  Returns the sequence number of the request.
    pub fn request_workspace(&mut self) -> (r: u64)
        requires
            old(self).workspace_sequence < u64::MAX,
        ensures
            r == old(self).workspace_sequence + 1,
            final(self).workspace_sequence == r,
            final(self).loading_workspace,
            final(self).document_sequence == old(self).document_sequence,
            final(self).loading_path == old(self).loading_path,
    {
        self.workspace_sequence = self.workspace_sequence + 1;
        self.loading_workspace = true;
        self.workspace_sequence
    }

    /// Whether a loaded document answers the latest document request; when
    /// it does, no document is loading any more.
    pub fn accept_document(&mut self, sequence: u64) -> (r: bool)
        ensures
            r == (sequence == old(self).document_sequence),
            r ==> final(self).loading_path.is_none() && final(self).document_sequence
                == old(self).document_sequence && final(self).workspace_sequence
                == old(self).workspace_sequence && final(self).loading_workspace
                == old(self).loading_workspace,
            !r ==> *final(self) == *old(self),
    {
        if sequence == self.document_sequence {
            self.loading_path = None;
            true
        } else {
            false
        }
    }

    /// Whether a scanned workspace answers the latest workspace request;
    /// when it does, no workspace is loading any more.
    pub fn accept_workspace(&mut self, sequence: u64) -> (r: bool)
        ensures
            r == (sequence == old(self).workspace_sequence),
            r ==> !final(self).loading_workspace && final(self).document_sequence
                == old(self).document_sequence && final(self).workspace_sequence
                == old(self).workspace_sequence && final(self).loading_path
                == old(self).loading_path,
            !r ==> *final(self) == *old(self),
    {
        if sequence == self.workspace_sequence {
            self.loading_workspace = false;
            true
        } else {
            false
        }
    }

    /// Whether a load is under way.
    pub fn is_loading(&self) -> (r: bool)
        ensures
            r == (self.loading_path.is_some() || self.loading_workspace),
    {
        self.loading_path.is_some() || self.loading_workspace
    }
}

/// What a dropped path opens.
pub enum DropAction {
    OpenWorkspace,
    OpenDocument,
    Refuse,
}

/// A dropped directory opens as a workspace, a dropped Markdown file opens
/// as a document, and anything else is refused.
pub fn classify_drop(is_directory: bool, file_name: &str) -> (r: DropAction)
    ensures
        is_directory ==> r is OpenWorkspace,
        !is_directory && is_markdown_spec(file_name@) ==> r is OpenDocument,
        !is_directory && !is_markdown_spec(file_name@) ==> r is Refuse,
{
    if is_directory {
        DropAction::OpenWorkspace
    } else if is_markdown(file_name) {
        DropAction::OpenDocument
    } else {
        DropAction::Refuse
    }
}

/// What the keyboard asks for in one frame.
pub struct Shortcuts {
    pub open_file: bool,
    pub open_folder: bool,
    pub toggle_sidebar: bool,
    pub focus_search: bool,
}

/// The reader's shortcuts: Ctrl+O opens a file, Ctrl+Shift+O a folder,
/// Ctrl+B shows or hides the sidebar, Ctrl+K focuses the file filter.
pub fn shortcuts(o_pressed: bool, b_pressed: bool, k_pressed: bool, command: bool, shift: bool) -> (r: Shortcuts)
    ensures
        r.open_file == (o_pressed && command && !shift),
        r.open_folder == (o_pressed && command && shift),
        r.toggle_sidebar == (b_pressed && command),
        r.focus_search == (k_pressed && command),
{
    Shortcuts {
        open_file: o_pressed && command && !shift,
        open_folder: o_pressed && command && shift,
        toggle_sidebar: b_pressed && command,
        focus_search: k_pressed && command,
    }
}

} // verus!
