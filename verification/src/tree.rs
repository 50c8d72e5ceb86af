//! The workspace tree: Markdown files of a folder, grouped by directory.
//!
//! Directories are kept ordered by name (the order of `str`'s `Ord`, which
//! is code-point order), with at most one directory per name; files are
//! kept ordered by their ASCII-lowercased name, files with equal keys in the
//! order they were added.

use vstd::prelude::*;
use crate::text::{chars_of, contains, contains_chars, lower, lower_chars, chars_eq};

verus! {

/// A Markdown file found in a workspace.
#[derive(Clone, Debug)]
pub struct FileEntry {
    pub name: String,
    pub path: String,
    /// Path below the workspace root, components joined by `'/'`.
    pub relative_path: String,
}

/// A directory of a workspace, with the directories and files below it.
#[derive(Debug)]
pub struct DirectoryNode {
    pub name: String,
    pub path: String,
    pub directories: Vec<DirectoryNode>,
    pub files: Vec<FileEntry>,
}

/// A scanned workspace.
#[derive(Debug)]
pub struct WorkspaceTree {
    pub root_node: DirectoryNode,
    pub file_count: usize,
}

impl Clone for WorkspaceTree {
    fn clone(&self) -> (r: WorkspaceTree)
        ensures
            r.root_node.model() == self.root_node.model(),
            r.file_count == self.file_count,
    {
        WorkspaceTree { root_node: self.root_node.copy_node(), file_count: self.file_count }
    }
}

/// Most files a workspace holds; files beyond it are left out.
pub const MAX_DIRECTORY_FILES: usize = 5000;

pub struct FileModel {
    pub name: Seq<char>,
    pub path: Seq<char>,
    pub relative_path: Seq<char>,
}

pub struct DirModel {
    pub name: Seq<char>,
    pub path: Seq<char>,
    pub dirs: Seq<DirModel>,
    pub files: Seq<FileModel>,
}

impl FileEntry {
    pub open spec fn model(self) -> FileModel {
        FileModel { name: self.name@, path: self.path@, relative_path: self.relative_path@ }
    }
}

pub open spec fn files_model(v: Seq<FileEntry>) -> Seq<FileModel> {
    v.map_values(|f: FileEntry| f.model())
}

pub open spec fn empty_dir() -> DirModel {
    DirModel { name: seq![], path: seq![], dirs: seq![], files: seq![] }
}

impl DirectoryNode {
    pub open spec fn model(self) -> DirModel
        decreases self,
    {
        DirModel {
            name: self.name@,
            path: self.path@,
            dirs: Seq::new(
                self.directories@.len(),
                |i: int|
                    if 0 <= i < self.directories@.len() {
                        self.directories@[i].model()
                    } else {
                        empty_dir()
                    },
            ),
            files: files_model(self.files@),
        }
    }
}

impl Default for DirectoryNode {
    fn default() -> (r: DirectoryNode)
        ensures
            r.model() == empty_dir(),
    {
        let r = DirectoryNode {
            name: String::new(),
            path: String::new(),
            directories: Vec::new(),
            files: Vec::new(),
        };
        assert(files_model(r.files@) =~= seq![]);
        assert(r.model().dirs =~= seq![]);
        assert(r.model().name =~= seq![]);
        assert(r.model().path =~= seq![]);
        assert(r.model() =~= empty_dir());
        r
    }
}

impl FileEntry {
    /// A copy of the entry.
    fn copy_entry(&self) -> (r: FileEntry)
        ensures
            r.model() == self.model(),
    {
        FileEntry {
            name: self.name.clone(),
            path: self.path.clone(),
            relative_path: self.relative_path.clone(),
        }
    }
}

impl DirectoryNode {
    /// A copy of the directory with everything below it.
    fn copy_node(&self) -> (r: DirectoryNode)
        ensures
            r.model() == self.model(),
        decreases self,
    {
        let mut files: Vec<FileEntry> = Vec::new();
        let mut i: usize = 0;
        while i < self.files.len()
            invariant
                i <= self.files@.len(),
                files_model(files@) =~= files_model(self.files@).take(i as int),
            decreases self.files@.len() - i,
        {
            let ghost before = files@;
            files.push(self.files[i].copy_entry());
            assert(files_model(files@) =~= files_model(before).push(self.files@[i as int].model()));
            i = i + 1;
        }
        let mut directories: Vec<DirectoryNode> = Vec::new();
        let mut j: usize = 0;
        while j < self.directories.len()
            invariant
                j <= self.directories@.len(),
                directories@.len() == j,
                forall|k: int| 0 <= k < j ==> (#[trigger] directories@[k]).model() == self.directories@[k].model(),
            decreases self.directories@.len() - j,
        {
            let d = self.directories[j].copy_node();
            directories.push(d);
            j = j + 1;
        }
        let r = DirectoryNode { name: self.name.clone(), path: self.path.clone(), directories, files };
        assert(files_model(r.files@) =~= files_model(self.files@));
        assert(r.model().dirs =~= self.model().dirs);
        r
    }
}

impl Clone for DirectoryNode {
    fn clone(&self) -> (r: DirectoryNode)
        ensures
            r.model() == self.model(),
    {
        self.copy_node()
    }
}

pub open spec fn dirs_model(v: Seq<DirectoryNode>) -> Seq<DirModel> {
    v.map_values(|d: DirectoryNode| d.model())
}

pub proof fn lemma_model_dirs(d: DirectoryNode)
    ensures
        d.model().dirs == dirs_model(d.directories@),
{
    assert(d.model().dirs =~= dirs_model(d.directories@));
}

/// `a` sorts before `b` in code-point order, looking from position `i` on.
pub open spec fn lex_lt_from(a: Seq<char>, b: Seq<char>, i: int) -> bool
    decreases a.len() - i,
{
    if i >= a.len() {
        i < b.len()
    } else if i >= b.len() {
        false
    } else if a[i] != b[i] {
        a[i] < b[i]
    } else {
        lex_lt_from(a, b, i + 1)
    }
}

/// `a < b` for strings: lexicographic by code point.
pub open spec fn lex_lt(a: Seq<char>, b: Seq<char>) -> bool {
    lex_lt_from(a, b, 0)
}

pub fn chars_lt(a: &[char], b: &[char]) -> (r: bool)
    ensures
        r == lex_lt(a@, b@),
{
    let mut i: usize = 0;
    while i < a.len() && i < b.len() && a[i] == b[i]
        invariant
            i <= a@.len(),
            i <= b@.len(),
            lex_lt(a@, b@) == lex_lt_from(a@, b@, i as int),
        decreases a@.len() - i,
    {
        i = i + 1;
    }
    if i >= a.len() {
        i < b.len()
    } else if i >= b.len() {
        false
    } else {
        a[i] < b[i]
    }
}

/// The query rule for one file: every file matches the empty query, and
/// otherwise a file matches when its lowercased relative path contains it.
pub open spec fn file_matches_spec(f: FileModel, q: Seq<char>) -> bool {
    q.len() == 0 || contains(lower(f.relative_path), q)
}

/// Some file of `d` matches `q`.
pub open spec fn any_file_matches(d: DirModel, q: Seq<char>) -> bool {
    exists|i: int| 0 <= i < d.files.len() && contains(lower(#[trigger] d.files[i].relative_path), q)
}

/// `contains_query`: a directory is kept in a filtered view when the query
/// is empty, its lowercased name contains the query, one of its files
/// matches, or one of its directories is kept.
pub open spec fn contains_query_spec(d: DirModel, q: Seq<char>) -> bool
    decreases d, d.dirs.len() + 1,
{
    q.len() == 0 || contains(lower(d.name), q) || any_file_matches(d, q) || any_dir_contains(d, q, 0)
}

/// One of the directories of `d` from index `i` on is kept for `q`.
pub open spec fn any_dir_contains(d: DirModel, q: Seq<char>, i: int) -> bool
    decreases d, d.dirs.len() - i,
{
    if 0 <= i < d.dirs.len() {
        contains_query_spec(d.dirs[i], q) || any_dir_contains(d, q, i + 1)
    } else {
        false
    }
}

impl FileEntry {
    /// Whether the file is shown for the (already lowercased) `query`.
    pub fn matches_query(&self, query: &str) -> (r: bool)
        ensures
            r == file_matches_spec(self.model(), query@),
    {
        let q = chars_of(query);
        if q.len() == 0 {
            return true;
        }
        let rel = lower_chars(chars_of(self.relative_path.as_str()).as_slice());
        contains_chars(rel.as_slice(), q.as_slice())
    }
}

impl DirectoryNode {
    fn contains_query_chars(&self, q: &[char]) -> (r: bool)
        ensures
            r == contains_query_spec(self.model(), q@),
        decreases self, self.directories@.len() + 1,
    {
        if q.len() == 0 {
            return true;
        }
        let name = lower_chars(chars_of(self.name.as_str()).as_slice());
        if contains_chars(name.as_slice(), q) {
            return true;
        }
        let ghost m = self.model();
        let mut i: usize = 0;
        while i < self.files.len()
            invariant
                i <= self.files@.len(),
                m == self.model(),
                forall|k: int| 0 <= k < i ==> !contains(lower(#[trigger] m.files[k].relative_path), q@),
            decreases self.files@.len() - i,
        {
            let rel = lower_chars(chars_of(self.files[i].relative_path.as_str()).as_slice());
            if contains_chars(rel.as_slice(), q) {
                assert(contains(lower(m.files[i as int].relative_path), q@));
                return true;
            }
            i = i + 1;
        }
        let mut j: usize = 0;
        while j < self.directories.len()
            invariant
                j <= self.directories@.len(),
                m == self.model(),
                any_dir_contains(m, q@, 0) == any_dir_contains(m, q@, j as int),
            decreases self.directories@.len() - j,
        {
            if self.directories[j].contains_query_chars(q) {
                return true;
            }
            j = j + 1;
        }
        false
    }

    /// `contains_query`: whether the directory stays visible when the file
    /// list is filtered by `query` (already lowercased by the caller).
    pub fn contains_query(&self, query: &str) -> (r: bool)
        ensures
            r == contains_query_spec(self.model(), query@),
    {
        let q = chars_of(query);
        self.contains_query_chars(q.as_slice())
    }
}

/// A query that keeps a directory keeps every directory above it: when a
/// directory of `d` is kept for `q`, so is `d`.
pub proof fn lemma_query_keeps_parents(d: DirModel, q: Seq<char>, i: int)
    requires
        0 <= i < d.dirs.len(),
        contains_query_spec(d.dirs[i], q),
    ensures
        contains_query_spec(d, q),
{
    lemma_any_dir_contains(d, q, 0, i);
}

proof fn lemma_any_dir_contains(d: DirModel, q: Seq<char>, j: int, i: int)
    requires
        0 <= j <= i < d.dirs.len(),
        contains_query_spec(d.dirs[i], q),
    ensures
        any_dir_contains(d, q, j),
    decreases i - j,
{
    if j < i {
        lemma_any_dir_contains(d, q, j + 1, i);
    }
}

/// The first file of a directory: its own first file, else the first file
/// of its directories in order.
pub open spec fn first_file_spec(d: DirModel) -> Option<FileModel>
    decreases d, d.dirs.len() + 1,
{
    if d.files.len() > 0 {
        Some(d.files[0])
    } else {
        first_file_in_dirs(d, 0)
    }
}

pub open spec fn first_file_in_dirs(d: DirModel, i: int) -> Option<FileModel>
    decreases d, d.dirs.len() - i,
{
    if 0 <= i < d.dirs.len() {
        match first_file_spec(d.dirs[i]) {
            Some(f) => Some(f),
            None => first_file_in_dirs(d, i + 1),
        }
    } else {
        None
    }
}

/// `first_file`: the file a freshly opened workspace shows first.
pub fn first_file(directory: &DirectoryNode) -> (r: Option<&FileEntry>)
    ensures
        match r {
            Some(f) => first_file_spec(directory.model()) == Some(f.model()),
            None => first_file_spec(directory.model()).is_none(),
        },
    decreases directory, directory.directories@.len() + 1,
{
    if directory.files.len() > 0 {
        return Some(&directory.files[0]);
    }
    let ghost m = directory.model();
    let mut j: usize = 0;
    while j < directory.directories.len()
        invariant
            j <= directory.directories@.len(),
            m == directory.model(),
            m.files.len() == 0,
            first_file_spec(m) == first_file_in_dirs(m, j as int),
        decreases directory.directories@.len() - j,
    {
        match first_file(&directory.directories[j]) {
            Some(f) => {
                return Some(f);
            },
            None => {},
        }
        j = j + 1;
    }
    None
}

/// `path` joined with `name`: a `separator` goes between them unless `path`
/// is empty or already ends with one.
pub open spec fn join_path(path: Seq<char>, name: Seq<char>, separator: char) -> Seq<char> {
    if path.len() > 0 && path.last() != separator {
        path + seq![separator] + name
    } else {
        path + name
    }
}

/// Index of the directory named `name`, or -1.
pub open spec fn dir_index(dirs: Seq<DirModel>, name: Seq<char>, i: int) -> int
    decreases dirs.len() - i,
{
    if 0 <= i < dirs.len() {
        if dirs[i].name == name {
            i
        } else {
            dir_index(dirs, name, i + 1)
        }
    } else {
        -1
    }
}

/// Where a directory named `name` goes: before the first directory whose
/// name sorts after it.
pub open spec fn dir_slot(dirs: Seq<DirModel>, name: Seq<char>, i: int) -> int
    decreases dirs.len() - i,
{
    if 0 <= i < dirs.len() {
        if lex_lt(name, dirs[i].name) {
            i
        } else {
            dir_slot(dirs, name, i + 1)
        }
    } else {
        dirs.len() as int
    }
}

/// Where a file goes: after every file whose lowercased name does not sort
/// after its own.
pub open spec fn file_slot(files: Seq<FileModel>, f: FileModel, i: int) -> int
    decreases files.len() - i,
{
    if 0 <= i < files.len() {
        if lex_lt(lower(f.name), lower(files[i].name)) {
            i
        } else {
            file_slot(files, f, i + 1)
        }
    } else {
        files.len() as int
    }
}

/// Adds `file` to the directory reached from `d` through the directory
/// names `segs`, creating the directories that are missing.
pub open spec fn insert_path(d: DirModel, segs: Seq<Seq<char>>, file: FileModel, sep: char) -> DirModel
    decreases segs.len(),
{
    if segs.len() == 0 {
        DirModel { files: d.files.insert(file_slot(d.files, file, 0), file), ..d }
    } else {
        let i = dir_index(d.dirs, segs[0], 0);
        if i >= 0 {
            DirModel {
                dirs: d.dirs.update(i, insert_path(d.dirs[i], segs.drop_first(), file, sep)),
                ..d
            }
        } else {
            let child = DirModel {
                name: segs[0],
                path: join_path(d.path, segs[0], sep),
                dirs: seq![],
                files: seq![],
            };
            DirModel {
                dirs: d.dirs.insert(
                    dir_slot(d.dirs, segs[0], 0),
                    insert_path(child, segs.drop_first(), file, sep),
                ),
                ..d
            }
        }
    }
}

/// End of the `'/'`-separated segment that starts at `i`.
pub open spec fn segment_end(s: Seq<char>, i: int) -> int
    decreases s.len() - i,
{
    if 0 <= i < s.len() && s[i] != '/' {
        segment_end(s, i + 1)
    } else {
        i
    }
}

pub proof fn lemma_segment_end(s: Seq<char>, i: int)
    requires
        0 <= i <= s.len(),
    ensures
        i <= segment_end(s, i) <= s.len(),
        segment_end(s, i) < s.len() ==> s[segment_end(s, i)] == '/',
    decreases s.len() - i,
{
    if i < s.len() && s[i] != '/' {
        lemma_segment_end(s, i + 1);
    }
}

/// `str::split('/')` from position `i`.
pub open spec fn segments_from(s: Seq<char>, i: int) -> Seq<Seq<char>>
    decreases s.len() + 1 - i,
{
    if 0 <= i <= s.len() {
        proof {
            lemma_segment_end(s, i);
        }
        let e = segment_end(s, i);
        if e < s.len() {
            seq![s.subrange(i, e)] + segments_from(s, e + 1)
        } else {
            seq![s.subrange(i, s.len() as int)]
        }
    } else {
        seq![]
    }
}

/// The directory names of a relative path: all its segments but the last.
pub open spec fn directory_segments(relative_path: Seq<char>) -> Seq<Seq<char>> {
    segments_from(relative_path, 0).drop_last()
}

/// The tree that `files` build below `root`, in order.
pub open spec fn build_spec(root: DirModel, files: Seq<FileModel>, sep: char) -> DirModel
    decreases files.len(),
{
    if files.len() == 0 {
        root
    } else {
        let f = files.last();
        insert_path(build_spec(root, files.drop_last(), sep), directory_segments(f.relative_path), f, sep)
    }
}

/// Name of a workspace whose root has no name.
pub open spec fn default_workspace_name() -> Seq<char> {
    seq!['W', 'o', 'r', 'k', 's', 'p', 'a', 'c', 'e']
}

fn split_segments(s: &[char]) -> (r: Vec<String>)
    ensures
        crate::preprocess::strings_view(r@) == segments_from(s@, 0),
{
    let mut r: Vec<String> = Vec::new();
    let mut i: usize = 0;
    assert(crate::preprocess::strings_view(r@) + segments_from(s@, 0) =~= segments_from(s@, 0));
    loop
        invariant
            i <= s@.len(),
            crate::preprocess::strings_view(r@) + segments_from(s@, i as int) == segments_from(s@, 0),
        decreases s@.len() - i,
    {
        let mut e = i;
        while e < s.len() && s[e] != '/'
            invariant
                i <= e <= s@.len(),
                segment_end(s@, i as int) == segment_end(s@, e as int),
            decreases s@.len() - e,
        {
            e = e + 1;
        }
        let ghost before = r@;
        r.push(crate::text::string_from_chars(&s[i..e]));
        assert(crate::preprocess::strings_view(r@) =~= crate::preprocess::strings_view(before).push(
            s@.subrange(i as int, e as int),
        ));
        if e < s.len() {
            assert(segments_from(s@, i as int) =~= seq![s@.subrange(i as int, e as int)] + segments_from(s@, e + 1));
            assert(crate::preprocess::strings_view(r@) + segments_from(s@, e + 1) =~= crate::preprocess::strings_view(before) + segments_from(s@, i as int));
            i = e + 1;
        } else {
            assert(crate::preprocess::strings_view(r@) =~= crate::preprocess::strings_view(before) + segments_from(s@, i as int));
            return r;
        }
    }
}

fn join_path_exec(path: &String, name: &String, separator: char) -> (r: String)
    ensures
        r@ == join_path(path@, name@, separator),
{
    let p = chars_of(path.as_str());
    let mut out: Vec<char> = p.clone();
    assert(out@ == p@);
    if p.len() > 0 && p[p.len() - 1] != separator {
        out.push(separator);
    }
    crate::text::push_all(&mut out, chars_of(name.as_str()).as_slice());
    assert(out@ =~= join_path(path@, name@, separator));
    crate::text::string_from_chars(out.as_slice())
}

fn find_dir(dirs: &Vec<DirectoryNode>, name: &[char]) -> (r: Option<usize>)
    ensures
        match r {
            Some(i) => i < dirs@.len() && i as int == dir_index(dirs_model(dirs@), name@, 0),
            None => dir_index(dirs_model(dirs@), name@, 0) < 0,
        },
{
    let ghost ms = dirs_model(dirs@);
    let mut i: usize = 0;
    while i < dirs.len()
        invariant
            i <= dirs@.len(),
            ms == dirs_model(dirs@),
            dir_index(ms, name@, 0) == dir_index(ms, name@, i as int),
        decreases dirs@.len() - i,
    {
        if chars_eq(chars_of(dirs[i].name.as_str()).as_slice(), name) {
            return Some(i);
        }
        i = i + 1;
    }
    None
}

fn dir_slot_exec(dirs: &Vec<DirectoryNode>, name: &[char]) -> (r: usize)
    ensures
        r as int == dir_slot(dirs_model(dirs@), name@, 0),
        r <= dirs@.len(),
{
    let ghost ms = dirs_model(dirs@);
    let mut i: usize = 0;
    while i < dirs.len()
        invariant
            i <= dirs@.len(),
            ms == dirs_model(dirs@),
            dir_slot(ms, name@, 0) == dir_slot(ms, name@, i as int),
        decreases dirs@.len() - i,
    {
        if chars_lt(name, chars_of(dirs[i].name.as_str()).as_slice()) {
            return i;
        }
        i = i + 1;
    }
    i
}

fn file_slot_exec(files: &Vec<FileEntry>, file: &FileEntry) -> (r: usize)
    ensures
        r as int == file_slot(files_model(files@), file.model(), 0),
        r <= files@.len(),
{
    let ghost ms = files_model(files@);
    let key = lower_chars(chars_of(file.name.as_str()).as_slice());
    let mut i: usize = 0;
    while i < files.len()
        invariant
            i <= files@.len(),
            ms == files_model(files@),
            key@ == lower(file.model().name),
            file_slot(ms, file.model(), 0) == file_slot(ms, file.model(), i as int),
        decreases files@.len() - i,
    {
        let other = lower_chars(chars_of(files[i].name.as_str()).as_slice());
        if chars_lt(key.as_slice(), other.as_slice()) {
            return i;
        }
        i = i + 1;
    }
    i
}

/// Adds `file` below `node` through the directory names `segs[k..]`.
fn insert_below(node: &mut DirectoryNode, segs: &Vec<String>, k: usize, file: FileEntry, separator: char)
    requires
        k <= segs@.len(),
    ensures
        final(node).model() == insert_path(
            old(node).model(),
            crate::preprocess::strings_view(segs@).skip(k as int),
            file.model(),
            separator,
        ),
    decreases segs@.len() - k,
{
    let ghost old_model = node.model();
    let ghost rest = crate::preprocess::strings_view(segs@).skip(k as int);
    proof {
        lemma_model_dirs(*node);
    }
    if k == segs.len() {
        assert(rest.len() == 0);
        let slot = file_slot_exec(&node.files, &file);
        let ghost fm = file.model();
        let ghost before = node.files@;
        node.files.insert(slot, file);
        assert(files_model(node.files@) =~= files_model(before).insert(slot as int, fm));
        proof {
            lemma_model_dirs(*node);
        }
        assert(node.model() =~= insert_path(old_model, rest, fm, separator));
        return;
    }
    assert(rest[0] == segs@[k as int]@);
    assert(rest.drop_first() =~= crate::preprocess::strings_view(segs@).skip(k + 1));
    let seg_chars = chars_of(segs[k].as_str());
    match find_dir(&node.directories, seg_chars.as_slice()) {
        Some(i) => {
            let ghost before = node.directories@;
            let mut child = node.directories.remove(i);
            insert_below(&mut child, segs, k + 1, file, separator);
            let ghost new_child = child;
            node.directories.insert(i, child);
            assert(node.directories@ =~= before.update(i as int, new_child));
            proof {
                lemma_model_dirs(*node);
            }
            assert(dirs_model(node.directories@) =~= dirs_model(before).update(
                i as int,
                new_child.model(),
            ));
            assert(node.model() =~= insert_path(old_model, rest, file.model(), separator));
        },
        None => {
            let slot = dir_slot_exec(&node.directories, seg_chars.as_slice());
            let path = join_path_exec(&node.path, &segs[k], separator);
            let mut child = DirectoryNode {
                name: segs[k].clone(),
                path,
                directories: Vec::new(),
                files: Vec::new(),
            };
            proof {
                lemma_model_dirs(child);
            }
            assert(files_model(child.files@) =~= seq![]);
            assert(child.model().dirs =~= seq![]);
            assert(child.name@ == rest[0]);
            assert(child.path@ == join_path(old_model.path, rest[0], separator));
            assert(child.model() =~= DirModel {
                name: rest[0],
                path: join_path(old_model.path, rest[0], separator),
                dirs: seq![],
                files: seq![],
            });
            insert_below(&mut child, segs, k + 1, file, separator);
            let ghost before = node.directories@;
            let ghost new_child = child;
            node.directories.insert(slot, child);
            proof {
                lemma_model_dirs(*node);
            }
            assert(dirs_model(node.directories@) =~= dirs_model(before).insert(
                slot as int,
                new_child.model(),
            ));
            assert(node.model() =~= insert_path(old_model, rest, file.model(), separator));
        },
    }
}

/// `insert_file`: adds `file` to the directory its relative path names,
/// below `root_node`.
pub fn insert_file(root_node: &mut DirectoryNode, file: FileEntry, separator: char)
    ensures
        final(root_node).model() == insert_path(
            old(root_node).model(),
            directory_segments(file.relative_path@),
            file.model(),
            separator,
        ),
{
    let rel = chars_of(file.relative_path.as_str());
    let mut segs = split_segments(rel.as_slice());
    proof {
        lemma_segments_nonempty(rel@, 0);
    }
    let ghost all = crate::preprocess::strings_view(segs@);
    segs.pop();
    assert(crate::preprocess::strings_view(segs@) =~= all.drop_last());
    assert(crate::preprocess::strings_view(segs@).skip(0) =~= crate::preprocess::strings_view(segs@));
    insert_below(root_node, &segs, 0, file, separator);
}

proof fn lemma_segments_nonempty(s: Seq<char>, i: int)
    requires
        0 <= i <= s.len(),
    ensures
        segments_from(s, i).len() >= 1,
{
}

/// `scan_workspace` once the files are found: the tree of `files` below a
/// root at `root_path`, named `root_name` (or "Workspace" when the root has
/// no name).  At most [`MAX_DIRECTORY_FILES`] files are taken, in the order
/// given; within a directory files are ordered by lowercased name, so the
/// tree does not depend on how the list was ordered beforehand except for
/// files whose lowercased names are equal.
pub fn build_workspace(root_path: &str, root_name: Option<&str>, files: Vec<FileEntry>, separator: char) -> (r: WorkspaceTree)
    ensures
        r.file_count == if files@.len() <= MAX_DIRECTORY_FILES {
            files@.len()
        } else {
            MAX_DIRECTORY_FILES as nat
        },
        r.root_node.model() == build_spec(
            DirModel {
                name: match root_name {
                    Some(n) => n@,
                    None => default_workspace_name(),
                },
                path: root_path@,
                dirs: seq![],
                files: seq![],
            },
            files_model(files@).take(r.file_count as int),
            separator,
        ),
        crate::tree_laws::well_formed(r.root_node.model(), separator),
        crate::tree_laws::count_files(r.root_node.model()) == r.file_count,
{
    let name = match root_name {
        Some(n) => String::from_str(n),
        None => String::from_str("Workspace"),
    };
    proof {
        reveal_strlit("Workspace");
        assert("Workspace"@ =~= default_workspace_name());
    }
    let mut root_node = DirectoryNode {
        name,
        path: String::from_str(root_path),
        directories: Vec::new(),
        files: Vec::new(),
    };
    let ghost root0 = root_node.model();
    assert(files_model(root_node.files@) =~= seq![]);
    assert(root0.dirs =~= seq![]);
    assert(root0 =~= DirModel {
        name: match root_name {
            Some(n) => n@,
            None => default_workspace_name(),
        },
        path: root_path@,
        dirs: seq![],
        files: seq![],
    });
    let count = if files.len() <= MAX_DIRECTORY_FILES {
        files.len()
    } else {
        MAX_DIRECTORY_FILES
    };
    let ghost taken = files_model(files@).take(count as int);
    let mut k: usize = 0;
    while k < count
        invariant
            k <= count,
            count <= files@.len(),
            taken == files_model(files@).take(count as int),
            root_node.model() == build_spec(root0, taken.take(k as int), separator),
        decreases count - k,
    {
        let f = FileEntry {
            name: files[k].name.clone(),
            path: files[k].path.clone(),
            relative_path: files[k].relative_path.clone(),
        };
        assert(f.model() == taken[k as int]);
        assert(taken.take(k + 1).drop_last() =~= taken.take(k as int));
        assert(taken.take(k + 1).last() == taken[k as int]);
        insert_file(&mut root_node, f, separator);
        k = k + 1;
    }
    assert(taken.take(k as int) =~= taken);
    proof {
        crate::tree_laws::lemma_build_workspace(root0, taken, separator);
    }
    WorkspaceTree { root_node, file_count: count }
}

} // verus!
