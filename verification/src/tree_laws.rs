//! Laws of the workspace tree: adding files keeps it ordered and counts
//! them, the first file is the first of a pre-order walk, and what the
//! file filter keeps.

use vstd::prelude::*;
use crate::text::{contains, lower, occurs_at};
use crate::tree::{
    any_dir_contains, any_file_matches, build_spec, contains_query_spec, dir_index, dir_slot,
    file_slot, first_file_in_dirs, first_file_spec, insert_path, join_path, lemma_query_keeps_parents,
    lex_lt, lex_lt_from, DirModel, FileModel,
};

verus! {

/// Directories strictly ordered by name.
pub open spec fn dirs_sorted(ds: Seq<DirModel>) -> bool {
    forall|i: int, j: int| 0 <= i < j < ds.len() ==> lex_lt(#[trigger] ds[i].name, #[trigger] ds[j].name)
}

/// Files ordered by lowercased name; equal keys allowed.
pub open spec fn files_sorted(fs: Seq<FileModel>) -> bool {
    forall|i: int, j: int|
        0 <= i < j < fs.len() ==> !lex_lt(lower(#[trigger] fs[j].name), lower(#[trigger] fs[i].name))
}

/// A well-formed directory: ordered directories and files, each directory
/// below it at its parent's path joined with its name, and well-formed.
pub open spec fn well_formed(d: DirModel, sep: char) -> bool
    decreases d, d.dirs.len() + 1,
{
    dirs_sorted(d.dirs) && files_sorted(d.files) && children_well_formed(d, sep, 0)
}

pub open spec fn children_well_formed(d: DirModel, sep: char, i: int) -> bool
    decreases d, d.dirs.len() - i,
{
    if 0 <= i < d.dirs.len() {
        d.dirs[i].path == join_path(d.path, d.dirs[i].name, sep) && well_formed(d.dirs[i], sep)
            && children_well_formed(d, sep, i + 1)
    } else {
        true
    }
}

/// Number of files in `d` and below it.
pub open spec fn count_files(d: DirModel) -> nat
    decreases d, d.dirs.len() + 1,
{
    d.files.len() + count_below(d, 0)
}

pub open spec fn count_below(d: DirModel, i: int) -> nat
    decreases d, d.dirs.len() - i,
{
    if 0 <= i < d.dirs.len() {
        count_files(d.dirs[i]) + count_below(d, i + 1)
    } else {
        0
    }
}

proof fn lemma_lex_irreflexive(a: Seq<char>, i: int)
    requires
        0 <= i,
    ensures
        !lex_lt_from(a, a, i),
    decreases a.len() - i,
{
    if i < a.len() {
        lemma_lex_irreflexive(a, i + 1);
    }
}

proof fn lemma_lex_transitive(a: Seq<char>, b: Seq<char>, c: Seq<char>, i: int)
    requires
        0 <= i,
        lex_lt_from(a, b, i),
        lex_lt_from(b, c, i),
    ensures
        lex_lt_from(a, c, i),
    decreases a.len() - i,
{
    if i < a.len() && i < b.len() && i < c.len() && a[i] == b[i] && b[i] == c[i] {
        lemma_lex_transitive(a, b, c, i + 1);
    }
}

proof fn lemma_lex_total(a: Seq<char>, b: Seq<char>, i: int)
    requires
        0 <= i <= a.len(),
        i <= b.len(),
        a.subrange(0, i) == b.subrange(0, i),
        !lex_lt_from(a, b, i),
        !lex_lt_from(b, a, i),
    ensures
        a == b,
    decreases a.len() - i,
{
    if i < a.len() && i < b.len() {
        assert(a[i] == b[i]);
        assert(a.subrange(0, i + 1) =~= a.subrange(0, i).push(a[i]));
        assert(b.subrange(0, i + 1) =~= b.subrange(0, i).push(b[i]));
        lemma_lex_total(a, b, i + 1);
    } else {
        assert(a.len() == b.len());
        assert(a =~= a.subrange(0, i));
        assert(b =~= b.subrange(0, i));
    }
}

/// `lex_lt` is a strict total order.
pub proof fn lemma_lex_order(a: Seq<char>, b: Seq<char>, c: Seq<char>)
    ensures
        !lex_lt(a, a),
        lex_lt(a, b) && lex_lt(b, c) ==> lex_lt(a, c),
        a != b ==> lex_lt(a, b) || lex_lt(b, a),
{
    lemma_lex_irreflexive(a, 0);
    if lex_lt(a, b) && lex_lt(b, c) {
        lemma_lex_transitive(a, b, c, 0);
    }
    if a != b && !lex_lt(a, b) && !lex_lt(b, a) {
        assert(a.subrange(0, 0) =~= b.subrange(0, 0));
        lemma_lex_total(a, b, 0);
    }
}

proof fn lemma_file_slot(fs: Seq<FileModel>, f: FileModel, i: int)
    requires
        0 <= i <= fs.len(),
        forall|k: int| 0 <= k < i ==> !lex_lt(lower(f.name), lower(#[trigger] fs[k].name)),
    ensures
        i <= file_slot(fs, f, i) <= fs.len(),
        forall|k: int| 0 <= k < file_slot(fs, f, i) ==> !lex_lt(lower(f.name), lower(#[trigger] fs[k].name)),
        file_slot(fs, f, i) < fs.len() ==> lex_lt(lower(f.name), lower(fs[file_slot(fs, f, i)].name)),
    decreases fs.len() - i,
{
    if i < fs.len() && !lex_lt(lower(f.name), lower(fs[i].name)) {
        lemma_file_slot(fs, f, i + 1);
    }
}

proof fn lemma_dir_slot(ds: Seq<DirModel>, name: Seq<char>, i: int)
    requires
        0 <= i <= ds.len(),
        forall|k: int| 0 <= k < i ==> !lex_lt(name, #[trigger] ds[k].name),
    ensures
        i <= dir_slot(ds, name, i) <= ds.len(),
        forall|k: int| 0 <= k < dir_slot(ds, name, i) ==> !lex_lt(name, #[trigger] ds[k].name),
        dir_slot(ds, name, i) < ds.len() ==> lex_lt(name, ds[dir_slot(ds, name, i)].name),
    decreases ds.len() - i,
{
    if i < ds.len() && !lex_lt(name, ds[i].name) {
        lemma_dir_slot(ds, name, i + 1);
    }
}

proof fn lemma_dir_index(ds: Seq<DirModel>, name: Seq<char>, i: int)
    requires
        0 <= i <= ds.len(),
    ensures
        dir_index(ds, name, i) < 0 ==> forall|k: int| i <= k < ds.len() ==> #[trigger] ds[k].name != name,
        dir_index(ds, name, i) >= 0 ==> i <= dir_index(ds, name, i) < ds.len() && ds[dir_index(
            ds,
            name,
            i,
        )].name == name,
    decreases ds.len() - i,
{
    if i < ds.len() && ds[i].name != name {
        lemma_dir_index(ds, name, i + 1);
    }
}

proof fn lemma_files_insert_sorted(fs: Seq<FileModel>, f: FileModel)
    requires
        files_sorted(fs),
    ensures
        files_sorted(fs.insert(file_slot(fs, f, 0), f)),
{
    lemma_file_slot(fs, f, 0);
    let p = file_slot(fs, f, 0);
    let r = fs.insert(p, f);
    assert forall|i: int, j: int| 0 <= i < j < r.len() implies !lex_lt(
        lower(#[trigger] r[j].name),
        lower(#[trigger] r[i].name),
    ) by {
        if j < p {
            assert(r[i] == fs[i] && r[j] == fs[j]);
        } else if j == p {
            assert(r[j] == f && r[i] == fs[i]);
        } else if i == p {
            // r[j] == fs[j - 1], which does not sort before fs[p]
            assert(r[i] == f && r[j] == fs[j - 1]);
            if j - 1 > p {
                assert(!lex_lt(lower(fs[j - 1].name), lower(fs[p].name)));
            }
            lemma_lex_order(lower(fs[j - 1].name), lower(f.name), lower(fs[p].name));
        } else if i < p {
            assert(r[i] == fs[i] && r[j] == fs[j - 1]);
        } else {
            assert(r[i] == fs[i - 1] && r[j] == fs[j - 1]);
        }
    }
}

proof fn lemma_dirs_insert_sorted(ds: Seq<DirModel>, c: DirModel)
    requires
        dirs_sorted(ds),
        dir_index(ds, c.name, 0) < 0,
    ensures
        dirs_sorted(ds.insert(dir_slot(ds, c.name, 0), c)),
{
    lemma_dir_slot(ds, c.name, 0);
    lemma_dir_index(ds, c.name, 0);
    let p = dir_slot(ds, c.name, 0);
    let r = ds.insert(p, c);
    assert forall|i: int, j: int| 0 <= i < j < r.len() implies lex_lt(
        #[trigger] r[i].name,
        #[trigger] r[j].name,
    ) by {
        if j < p {
            assert(r[i] == ds[i] && r[j] == ds[j]);
        } else if j == p {
            assert(r[j] == c && r[i] == ds[i]);
            lemma_lex_order(ds[i].name, c.name, c.name);
        } else if i == p {
            assert(r[i] == c && r[j] == ds[j - 1]);
            if j - 1 > p {
                lemma_lex_order(c.name, ds[p].name, ds[j - 1].name);
            }
        } else if i < p {
            assert(r[i] == ds[i] && r[j] == ds[j - 1]);
        } else {
            assert(r[i] == ds[i - 1] && r[j] == ds[j - 1]);
        }
    }
}

proof fn lemma_children_update(d: DirModel, e: DirModel, sep: char, i: int, k: int)
    requires
        0 <= k < d.dirs.len(),
        e.path == d.path,
        e.dirs == d.dirs.update(k, e.dirs[k]),
        e.dirs[k].name == d.dirs[k].name,
        e.dirs[k].path == d.dirs[k].path,
        well_formed(e.dirs[k], sep),
        children_well_formed(d, sep, i),
    ensures
        children_well_formed(e, sep, i),
    decreases d.dirs.len() - i,
{
    if 0 <= i < d.dirs.len() {
        lemma_children_update(d, e, sep, i + 1, k);
    }
}

proof fn lemma_children_insert(d: DirModel, e: DirModel, sep: char, i: int, p: int)
    requires
        0 <= p <= d.dirs.len(),
        0 <= i,
        e.path == d.path,
        e.dirs.len() == d.dirs.len() + 1,
        e.dirs == d.dirs.insert(p, e.dirs[p]),
        e.dirs[p].path == join_path(d.path, e.dirs[p].name, sep),
        well_formed(e.dirs[p], sep),
        i <= p ==> children_well_formed(d, sep, i),
        i > p ==> children_well_formed(d, sep, i - 1),
    ensures
        children_well_formed(e, sep, i),
    decreases e.dirs.len() - i,
{
    if i < e.dirs.len() {
        if i < p {
            lemma_children_insert(d, e, sep, i + 1, p);
        } else if i == p {
            lemma_children_insert(d, e, sep, i + 1, p);
        } else {
            assert(e.dirs[i] == d.dirs[i - 1]);
            lemma_children_insert(d, e, sep, i + 1, p);
        }
    }
}

proof fn lemma_count_update(d: DirModel, e: DirModel, i: int, k: int)
    requires
        0 <= k < d.dirs.len(),
        0 <= i,
        e.dirs == d.dirs.update(k, e.dirs[k]),
    ensures
        count_below(e, i) == count_below(d, i) + if i <= k {
            count_files(e.dirs[k]) - count_files(d.dirs[k])
        } else {
            0
        },
    decreases d.dirs.len() - i,
{
    if i < d.dirs.len() {
        lemma_count_update(d, e, i + 1, k);
    }
}

proof fn lemma_count_insert(d: DirModel, e: DirModel, i: int, p: int)
    requires
        0 <= p <= d.dirs.len(),
        0 <= i,
        e.dirs.len() == d.dirs.len() + 1,
        e.dirs == d.dirs.insert(p, e.dirs[p]),
    ensures
        i <= p ==> count_below(e, i) == count_below(d, i) + count_files(e.dirs[p]),
        i > p ==> count_below(e, i) == count_below(d, i - 1),
    decreases e.dirs.len() - i,
{
    if i < e.dirs.len() {
        lemma_count_insert(d, e, i + 1, p);
        if i > p {
            assert(e.dirs[i] == d.dirs[i - 1]);
        }
    } else {
        if i > p {
            assert(i - 1 >= d.dirs.len());
        }
    }
}

proof fn lemma_empty_dir(c: DirModel, sep: char)
    requires
        c.dirs.len() == 0,
        c.files.len() == 0,
    ensures
        well_formed(c, sep),
        count_files(c) == 0,
{
}

/// Adding a file keeps a well-formed tree well-formed, and it holds one
/// file more.
pub proof fn lemma_insert_path(d: DirModel, segs: Seq<Seq<char>>, f: FileModel, sep: char)
    requires
        well_formed(d, sep),
    ensures
        well_formed(insert_path(d, segs, f, sep), sep),
        count_files(insert_path(d, segs, f, sep)) == count_files(d) + 1,
        insert_path(d, segs, f, sep).name == d.name,
        insert_path(d, segs, f, sep).path == d.path,
    decreases segs.len(),
{
    let r = insert_path(d, segs, f, sep);
    if segs.len() == 0 {
        lemma_files_insert_sorted(d.files, f);
        lemma_file_slot(d.files, f, 0);
        assert(r.dirs == d.dirs);
        lemma_children_same(d, r, sep, 0);
        lemma_count_same(d, r, 0);
        assert(r.files.len() == d.files.len() + 1);
    } else {
        let i = dir_index(d.dirs, segs[0], 0);
        lemma_dir_index(d.dirs, segs[0], 0);
        lemma_well_formed_children(d, sep, 0);
        if i >= 0 {
            let c = insert_path(d.dirs[i], segs.drop_first(), f, sep);
            lemma_child_well_formed(d, sep, 0, i);
            lemma_insert_path(d.dirs[i], segs.drop_first(), f, sep);
            assert(r.dirs == d.dirs.update(i, c));
            assert forall|a: int, b: int| 0 <= a < b < r.dirs.len() implies lex_lt(
                #[trigger] r.dirs[a].name,
                #[trigger] r.dirs[b].name,
            ) by {
                assert(r.dirs[a].name == d.dirs[a].name);
                assert(r.dirs[b].name == d.dirs[b].name);
            }
            lemma_children_update(d, r, sep, 0, i);
            lemma_count_update(d, r, 0, i);
            assert(r.files == d.files);
            assert(r.dirs[i] == c);
            assert(count_below(r, 0) == count_below(d, 0) + 1);
        } else {
            let child = DirModel {
                name: segs[0],
                path: join_path(d.path, segs[0], sep),
                dirs: seq![],
                files: seq![],
            };
            lemma_empty_dir(child, sep);
            let c = insert_path(child, segs.drop_first(), f, sep);
            lemma_insert_path(child, segs.drop_first(), f, sep);
            let p = dir_slot(d.dirs, segs[0], 0);
            lemma_dir_slot(d.dirs, segs[0], 0);
            assert(r.dirs == d.dirs.insert(p, c));
            lemma_dirs_insert_sorted(d.dirs, c);
            lemma_children_insert(d, r, sep, 0, p);
            lemma_count_insert(d, r, 0, p);
            assert(r.files == d.files);
            assert(r.dirs[p] == c);
            assert(count_below(r, 0) == count_below(d, 0) + 1);
        }
    }
}

proof fn lemma_children_same(d: DirModel, e: DirModel, sep: char, i: int)
    requires
        e.dirs == d.dirs,
        e.path == d.path,
        children_well_formed(d, sep, i),
    ensures
        children_well_formed(e, sep, i),
    decreases d.dirs.len() - i,
{
    if 0 <= i < d.dirs.len() {
        lemma_children_same(d, e, sep, i + 1);
    }
}

proof fn lemma_count_same(d: DirModel, e: DirModel, i: int)
    requires
        e.dirs == d.dirs,
    ensures
        count_below(e, i) == count_below(d, i),
    decreases d.dirs.len() - i,
{
    if 0 <= i < d.dirs.len() {
        lemma_count_same(d, e, i + 1);
    }
}

proof fn lemma_well_formed_children(d: DirModel, sep: char, i: int)
    requires
        well_formed(d, sep),
    ensures
        children_well_formed(d, sep, 0),
{
}

proof fn lemma_child_well_formed(d: DirModel, sep: char, i: int, k: int)
    requires
        0 <= i <= k < d.dirs.len(),
        children_well_formed(d, sep, i),
    ensures
        well_formed(d.dirs[k], sep),
        d.dirs[k].path == join_path(d.path, d.dirs[k].name, sep),
    decreases k - i,
{
    if i < k {
        lemma_child_well_formed(d, sep, i + 1, k);
    }
}

/// A workspace built from files is well-formed and holds every file it was
/// given.
pub proof fn lemma_build_workspace(root: DirModel, files: Seq<FileModel>, sep: char)
    requires
        root.dirs.len() == 0,
        root.files.len() == 0,
    ensures
        well_formed(build_spec(root, files, sep), sep),
        count_files(build_spec(root, files, sep)) == files.len(),
    decreases files.len(),
{
    if files.len() == 0 {
        lemma_empty_dir(root, sep);
    } else {
        lemma_build_workspace(root, files.drop_last(), sep);
        let f = files.last();
        lemma_insert_path(
            build_spec(root, files.drop_last(), sep),
            crate::tree::directory_segments(f.relative_path),
            f,
            sep,
        );
    }
}

proof fn lemma_first_in_dirs(d: DirModel, i: int)
    requires
        0 <= i <= d.dirs.len(),
        count_below(d, i) > 0,
    ensures
        first_file_in_dirs(d, i).is_some(),
    decreases d, d.dirs.len() - i,
{
    if i < d.dirs.len() {
        if count_files(d.dirs[i]) > 0 {
            lemma_first_file(d.dirs[i]);
        } else {
            lemma_first_in_dirs(d, i + 1);
        }
    }
}

/// A directory with files below it has a first file.
pub proof fn lemma_first_file(d: DirModel)
    requires
        count_files(d) > 0,
    ensures
        first_file_spec(d).is_some(),
    decreases d, d.dirs.len() + 1,
{
    if d.files.len() == 0 {
        lemma_first_in_dirs(d, 0);
    }
}

/// The files of `d` and below it in pre-order: a directory's own files,
/// then those of its directories in order.
pub open spec fn walk_files(d: DirModel) -> Seq<FileModel>
    decreases d, d.dirs.len() + 1,
{
    d.files + walk_below(d, 0)
}

pub open spec fn walk_below(d: DirModel, i: int) -> Seq<FileModel>
    decreases d, d.dirs.len() - i,
{
    if 0 <= i < d.dirs.len() {
        walk_files(d.dirs[i]) + walk_below(d, i + 1)
    } else {
        seq![]
    }
}

/// The first element of `s`, if any.
pub open spec fn head<A>(s: Seq<A>) -> Option<A> {
    if s.len() > 0 {
        Some(s[0])
    } else {
        None
    }
}

proof fn lemma_head_concat<A>(a: Seq<A>, b: Seq<A>)
    ensures
        head(a + b) == if a.len() > 0 {
            head(a)
        } else {
            head(b)
        },
{
    if a.len() == 0 {
        assert(a + b =~= b);
    }
}

proof fn lemma_walk_below(d: DirModel, i: int)
    requires
        0 <= i <= d.dirs.len(),
    ensures
        first_file_in_dirs(d, i) == head(walk_below(d, i)),
        walk_below(d, i).len() == count_below(d, i),
    decreases d, d.dirs.len() - i,
{
    if i < d.dirs.len() {
        lemma_first_file_walk(d.dirs[i]);
        lemma_walk_below(d, i + 1);
        lemma_head_concat(walk_files(d.dirs[i]), walk_below(d, i + 1));
    }
}

/// The first file of a directory is the first file of a pre-order walk
/// of it (its own files first, then its directories in order), and there
/// is none exactly when no file lies in it or below it.
pub proof fn lemma_first_file_walk(d: DirModel)
    ensures
        first_file_spec(d) == head(walk_files(d)),
        walk_files(d).len() == count_files(d),
        first_file_spec(d).is_none() <==> count_files(d) == 0,
    decreases d, d.dirs.len() + 1,
{
    lemma_walk_below(d, 0);
    lemma_head_concat(d.files, walk_below(d, 0));
}

/// The directory reached from `d` by following directory indexes `p`.
pub open spec fn node_at(d: DirModel, p: Seq<int>) -> Option<DirModel>
    decreases p.len(),
{
    if p.len() == 0 {
        Some(d)
    } else if 0 <= p[0] < d.dirs.len() {
        node_at(d.dirs[p[0]], p.drop_first())
    } else {
        None
    }
}

/// A directory matches `q` by itself: its lowercased name contains it, or
/// the lowercased relative path of one of its files does.
pub open spec fn matches_itself(n: DirModel, q: Seq<char>) -> bool {
    contains(lower(n.name), q) || any_file_matches(n, q)
}

proof fn lemma_any_dir_witness(d: DirModel, q: Seq<char>, j: int)
    requires
        0 <= j,
        any_dir_contains(d, q, j),
    ensures
        exists|i: int| j <= i < d.dirs.len() && contains_query_spec(#[trigger] d.dirs[i], q),
    decreases d.dirs.len() - j,
{
    if j < d.dirs.len() && !contains_query_spec(d.dirs[j], q) {
        lemma_any_dir_witness(d, q, j + 1);
    }
}

/// `contains_query` in subtree form: a directory is kept for `q` exactly
/// when `q` is empty or some directory in it or below it matches `q` by
/// itself.
pub proof fn lemma_contains_query_subtree(d: DirModel, q: Seq<char>)
    ensures
        contains_query_spec(d, q) <==> (q.len() == 0 || exists|p: Seq<int>|
            #[trigger] node_at(d, p) is Some && matches_itself(node_at(d, p)->0, q)),
    decreases d, d.dirs.len() + 1,
{
    if q.len() > 0 {
        if contains_query_spec(d, q) {
            if matches_itself(d, q) {
                assert(node_at(d, seq![]) == Some(d));
            } else {
                assert(any_dir_contains(d, q, 0));
                lemma_any_dir_witness(d, q, 0);
                let i = choose|i: int| 0 <= i < d.dirs.len() && contains_query_spec(#[trigger] d.dirs[i], q);
                lemma_contains_query_subtree(d.dirs[i], q);
                let p0 = choose|p: Seq<int>|
                    #[trigger] node_at(d.dirs[i], p) is Some && matches_itself(node_at(d.dirs[i], p)->0, q);
                let p = seq![i] + p0;
                assert(p.drop_first() =~= p0);
                assert(node_at(d, p) == node_at(d.dirs[i], p0));
            }
        }
        if exists|p: Seq<int>| #[trigger] node_at(d, p) is Some && matches_itself(node_at(d, p)->0, q) {
            let p = choose|p: Seq<int>| #[trigger] node_at(d, p) is Some && matches_itself(node_at(d, p)->0, q);
            if p.len() > 0 {
                let i = p[0];
                assert(node_at(d, p) == node_at(d.dirs[i], p.drop_first()));
                lemma_contains_query_subtree(d.dirs[i], q);
                lemma_query_keeps_parents(d, q, i);
            }
        }
    }
}

proof fn lemma_contains_transitive(hay: Seq<char>, q: Seq<char>, p: Seq<char>)
    requires
        contains(hay, q),
        contains(q, p),
    ensures
        contains(hay, p),
{
    let i = choose|i: int| occurs_at(hay, q, i);
    let j = choose|j: int| occurs_at(q, p, j);
    assert(hay.subrange(i + j, i + j + p.len()) =~= q.subrange(j, j + p.len()));
    assert(occurs_at(hay, p, i + j));
}

/// A directory kept for a query is kept for every part of it: when `d` is
/// kept for `q` and `p` occurs in `q` (the empty query included), `d` is
/// kept for `p`.
pub proof fn lemma_contains_query_narrower(d: DirModel, q: Seq<char>, p: Seq<char>)
    requires
        contains_query_spec(d, q),
        contains(q, p),
    ensures
        contains_query_spec(d, p),
    decreases d, d.dirs.len() + 1,
{
    if p.len() > 0 && q.len() > 0 {
        if contains(lower(d.name), q) {
            lemma_contains_transitive(lower(d.name), q, p);
        } else if any_file_matches(d, q) {
            let i = choose|i: int| 0 <= i < d.files.len() && contains(lower(#[trigger] d.files[i].relative_path), q);
            lemma_contains_transitive(lower(d.files[i].relative_path), q, p);
            assert(contains(lower(d.files[i].relative_path), p));
        } else {
            lemma_any_dir_witness(d, q, 0);
            let i = choose|i: int| 0 <= i < d.dirs.len() && contains_query_spec(#[trigger] d.dirs[i], q);
            lemma_contains_query_narrower(d.dirs[i], q, p);
            lemma_query_keeps_parents(d, p, i);
        }
    } else if p.len() > 0 {
        assert(occurs_at(q, p, 0) ==> p.len() <= q.len());
    }
}

/// Adding a file never hides a directory: a directory kept for `q` is
/// still kept after a file is added anywhere below it.
pub proof fn lemma_insert_keeps_query(d: DirModel, segs: Seq<Seq<char>>, f: FileModel, sep: char, q: Seq<char>)
    requires
        contains_query_spec(d, q),
    ensures
        contains_query_spec(insert_path(d, segs, f, sep), q),
    decreases segs.len(),
{
    let r = insert_path(d, segs, f, sep);
    if q.len() > 0 && !contains(lower(d.name), q) {
        if any_file_matches(d, q) {
            let i = choose|i: int| 0 <= i < d.files.len() && contains(lower(#[trigger] d.files[i].relative_path), q);
            if segs.len() == 0 {
                let s = file_slot(d.files, f, 0);
                lemma_file_slot(d.files, f, 0);
                let k = if i < s { i } else { i + 1 };
                assert(r.files[k] == d.files[i]);
                assert(contains(lower(r.files[k].relative_path), q));
            } else {
                assert(r.files == d.files);
                assert(contains(lower(r.files[i].relative_path), q));
            }
        } else {
            lemma_any_dir_witness(d, q, 0);
            let i = choose|i: int| 0 <= i < d.dirs.len() && contains_query_spec(#[trigger] d.dirs[i], q);
            if segs.len() == 0 {
                assert(r.dirs == d.dirs);
                lemma_query_keeps_parents(r, q, i);
            } else {
                let x = dir_index(d.dirs, segs[0], 0);
                lemma_dir_index(d.dirs, segs[0], 0);
                if x >= 0 {
                    if i == x {
                        lemma_insert_keeps_query(d.dirs[i], segs.drop_first(), f, sep, q);
                    }
                    lemma_query_keeps_parents(r, q, i);
                } else {
                    let child = DirModel {
                        name: segs[0],
                        path: join_path(d.path, segs[0], sep),
                        dirs: seq![],
                        files: seq![],
                    };
                    let s = dir_slot(d.dirs, segs[0], 0);
                    lemma_dir_slot(d.dirs, segs[0], 0);
                    let k = if i < s { i } else { i + 1 };
                    assert(r.dirs[k] == d.dirs[i]);
                    lemma_query_keeps_parents(r, q, k);
                }
            }
        }
    }
}

/// The directory reached from `d` by following directory names `ns`.
pub open spec fn node_named(d: DirModel, ns: Seq<Seq<char>>) -> Option<DirModel>
    decreases ns.len(),
{
    if ns.len() == 0 {
        Some(d)
    } else {
        let i = dir_index(d.dirs, ns[0], 0);
        if 0 <= i < d.dirs.len() {
            node_named(d.dirs[i], ns.drop_first())
        } else {
            None
        }
    }
}

/// `ns` is `segs` or a beginning of it.
pub open spec fn is_prefix(ns: Seq<Seq<char>>, segs: Seq<Seq<char>>) -> bool {
    ns.len() <= segs.len() && ns == segs.take(ns.len() as int)
}

/// What a directory on the way to an added file keeps: its name, its
/// path, and its files, to which the target directory adds the file in
/// its place.
pub open spec fn kept_on_route(n: DirModel, o: DirModel, target: bool, f: FileModel) -> bool {
    &&& n.name == o.name
    &&& n.path == o.path
    &&& if target {
        n.files == o.files.insert(file_slot(o.files, f, 0), f) && n.dirs == o.dirs
    } else {
        n.files == o.files
    }
}

proof fn lemma_dir_index_between(ds: Seq<DirModel>, name: Seq<char>, i: int)
    requires
        0 <= i <= ds.len(),
    ensures
        dir_index(ds, name, i) < 0 ==> dir_index(ds, name, i) == -1,
        dir_index(ds, name, i) >= 0 ==> forall|k: int|
            i <= k < dir_index(ds, name, i) ==> #[trigger] ds[k].name != name,
    decreases ds.len() - i,
{
    if i < ds.len() && ds[i].name != name {
        lemma_dir_index_between(ds, name, i + 1);
    }
}

/// `dir_index` finds the first directory with the name, or gives -1.
proof fn lemma_dir_index_is(ds: Seq<DirModel>, name: Seq<char>, r: int)
    requires
        (0 <= r < ds.len() && ds[r].name == name && forall|k: int| 0 <= k < r ==> #[trigger] ds[k].name != name)
            || (r == -1 && forall|k: int| 0 <= k < ds.len() ==> #[trigger] ds[k].name != name),
    ensures
        dir_index(ds, name, 0) == r,
{
    lemma_dir_index(ds, name, 0);
    lemma_dir_index_between(ds, name, 0);
    let x = dir_index(ds, name, 0);
    if x >= 0 && r >= 0 {
        if x < r {
            assert(ds[x].name != name);
        } else if r < x {
            assert(ds[r].name != name);
        }
    } else if x >= 0 {
        assert(ds[x].name != name);
    } else if r >= 0 {
        assert(ds[r].name != name);
    }
}

proof fn lemma_dir_index_same_names(ds: Seq<DirModel>, es: Seq<DirModel>, name: Seq<char>)
    requires
        ds.len() == es.len(),
        forall|k: int| 0 <= k < ds.len() ==> #[trigger] ds[k].name == es[k].name,
    ensures
        dir_index(es, name, 0) == dir_index(ds, name, 0),
{
    lemma_dir_index(ds, name, 0);
    lemma_dir_index_between(ds, name, 0);
    let x = dir_index(ds, name, 0);
    if x >= 0 {
        assert forall|k: int| 0 <= k < x implies #[trigger] es[k].name != name by {
            assert(ds[k].name != name);
        }
        assert(es[x].name == ds[x].name);
    } else {
        assert forall|k: int| 0 <= k < es.len() implies #[trigger] es[k].name != name by {
            assert(ds[k].name != name);
        }
    }
    lemma_dir_index_is(es, name, x);
}

proof fn lemma_dir_index_inserted(ds: Seq<DirModel>, s: int, c: DirModel, name: Seq<char>)
    requires
        0 <= s <= ds.len(),
        name != c.name,
    ensures
        ({
            let x = dir_index(ds, name, 0);
            let y = dir_index(ds.insert(s, c), name, 0);
            &&& (x < 0 <==> y < 0)
            &&& (x >= 0 ==> y < ds.len() + 1 && ds.insert(s, c)[y] == ds[x])
        }),
{
    let es = ds.insert(s, c);
    lemma_dir_index(ds, name, 0);
    lemma_dir_index_between(ds, name, 0);
    let x = dir_index(ds, name, 0);
    if x >= 0 {
        let y = if x < s { x } else { x + 1 };
        assert(es[y] == ds[x]);
        assert forall|k: int| 0 <= k < y implies #[trigger] es[k].name != name by {
            if k < s {
                assert(es[k] == ds[k]);
            } else if k > s {
                assert(es[k] == ds[k - 1]);
            }
        }
        lemma_dir_index_is(es, name, y);
    } else {
        assert forall|k: int| 0 <= k < es.len() implies #[trigger] es[k].name != name by {
            if k < s {
                assert(es[k] == ds[k]);
            } else if k > s {
                assert(es[k] == ds[k - 1]);
            }
        }
        lemma_dir_index_is(es, name, -1);
    }
}

proof fn lemma_node_named_same_dirs(d: DirModel, e: DirModel, ns: Seq<Seq<char>>)
    requires
        e.dirs == d.dirs,
        ns.len() > 0,
    ensures
        node_named(e, ns) == node_named(d, ns),
{
}

proof fn lemma_node_named_empty(d: DirModel, ns: Seq<Seq<char>>)
    requires
        d.dirs.len() == 0,
        ns.len() > 0,
    ensures
        node_named(d, ns).is_none(),
{
    lemma_dir_index(d.dirs, ns[0], 0);
}

/// Adding a file changes only the directories on its way: a directory off
/// that way is what it was, with everything below it; a directory on the
/// way keeps its name, path and files, the one the file goes to gains the
/// file in its place, and a directory created on the way bears its name
/// and holds no file but the added one.
pub proof fn lemma_insert_path_nodes(
    d: DirModel,
    segs: Seq<Seq<char>>,
    f: FileModel,
    sep: char,
    ns: Seq<Seq<char>>,
)
    ensures
        !is_prefix(ns, segs) ==> node_named(insert_path(d, segs, f, sep), ns) == node_named(d, ns),
        is_prefix(ns, segs) ==> node_named(insert_path(d, segs, f, sep), ns) is Some,
        is_prefix(ns, segs) && node_named(d, ns) is Some ==> kept_on_route(
            node_named(insert_path(d, segs, f, sep), ns)->0,
            node_named(d, ns)->0,
            ns.len() == segs.len(),
            f,
        ),
        is_prefix(ns, segs) && node_named(d, ns) is None ==> ns.len() > 0 && ({
            let n = node_named(insert_path(d, segs, f, sep), ns)->0;
            &&& n.name == ns.last()
            &&& n.files == if ns.len() == segs.len() {
                seq![f]
            } else {
                Seq::<FileModel>::empty()
            }
        }),
    decreases segs.len(),
{
    let r = insert_path(d, segs, f, sep);
    if ns.len() == 0 {
        assert(segs.take(0) =~= ns);
        assert(is_prefix(ns, segs));
        if segs.len() == 0 {
            lemma_file_slot(d.files, f, 0);
            assert(r.files == d.files.insert(file_slot(d.files, f, 0), f));
        }
    } else if segs.len() == 0 {
        assert(!is_prefix(ns, segs));
        lemma_node_named_same_dirs(d, r, ns);
    } else {
        let x = dir_index(d.dirs, segs[0], 0);
        lemma_dir_index(d.dirs, segs[0], 0);
        let nsr = ns.drop_first();
        let sr = segs.drop_first();
        assert(ns[0] == segs[0] ==> (is_prefix(ns, segs) <==> is_prefix(nsr, sr))) by {
            if ns[0] == segs[0] {
                if is_prefix(ns, segs) {
                    assert(nsr =~= sr.take(nsr.len() as int));
                }
                if is_prefix(nsr, sr) {
                    assert forall|k: int| 0 <= k < ns.len() implies #[trigger] ns[k] == segs.take(
                        ns.len() as int,
                    )[k] by {
                        if k > 0 {
                            assert(ns[k] == nsr[k - 1]);
                            assert(nsr[k - 1] == sr.take(nsr.len() as int)[k - 1]);
                        }
                    }
                    assert(ns =~= segs.take(ns.len() as int));
                }
            }
        }
        assert(ns[0] != segs[0] ==> !is_prefix(ns, segs)) by {
            if is_prefix(ns, segs) {
                assert(ns[0] == segs.take(ns.len() as int)[0]);
            }
        }
        if x >= 0 {
            let c = insert_path(d.dirs[x], sr, f, sep);
            assert(r.dirs == d.dirs.update(x, c));
            assert forall|k: int| 0 <= k < d.dirs.len() implies #[trigger] d.dirs[k].name == r.dirs[k].name by {
            }
            lemma_dir_index_same_names(d.dirs, r.dirs, ns[0]);
            let y = dir_index(d.dirs, ns[0], 0);
            lemma_dir_index(d.dirs, ns[0], 0);
            if y >= 0 && y != x {
                assert(r.dirs[y] == d.dirs[y]);
                assert(node_named(r, ns) == node_named(d, ns));
            } else if y == x {
                lemma_insert_path_nodes(d.dirs[x], sr, f, sep, nsr);
            }
        } else {
            let child = DirModel {
                name: segs[0],
                path: join_path(d.path, segs[0], sep),
                dirs: seq![],
                files: seq![],
            };
            let c = insert_path(child, sr, f, sep);
            let s = dir_slot(d.dirs, segs[0], 0);
            lemma_dir_slot(d.dirs, segs[0], 0);
            assert(r.dirs == d.dirs.insert(s, c));
            assert(c.name == segs[0]);
            if ns[0] != segs[0] {
                lemma_dir_index_inserted(d.dirs, s, c, ns[0]);
                let y = dir_index(d.dirs, ns[0], 0);
                let z = dir_index(r.dirs, ns[0], 0);
                if y >= 0 {
                    lemma_dir_index(d.dirs, ns[0], 0);
                    assert(node_named(r, ns) == node_named(r.dirs[z], nsr));
                    assert(node_named(d, ns) == node_named(d.dirs[y], nsr));
                }
            } else {
                assert forall|k: int| 0 <= k < s implies #[trigger] r.dirs[k].name != ns[0] by {
                    assert(r.dirs[k] == d.dirs[k]);
                }
                lemma_dir_index_is(r.dirs, ns[0], s);
                assert(node_named(r, ns) == node_named(c, nsr));
                assert(node_named(d, ns).is_none());
                lemma_insert_path_nodes(child, sr, f, sep, nsr);
                if nsr.len() == 0 {
                    assert(sr.take(0) =~= nsr);
                }
                if nsr.len() > 0 {
                    lemma_node_named_empty(child, nsr);
                    assert(nsr.last() == ns.last());
                } else {
                    assert(node_named(child, nsr) == Some(child));
                    if sr.len() == 0 {
                        assert(file_slot(child.files, f, 0) == 0);
                        assert(child.files.insert(0, f) =~= seq![f]);
                    }
                }
            }
        }
    }
}

/// The files of `d` and of every directory below it are ordered by
/// lowercased name.
pub open spec fn all_files_sorted(d: DirModel) -> bool
    decreases d, d.dirs.len() + 1,
{
    files_sorted(d.files) && children_files_sorted(d, 0)
}

pub open spec fn children_files_sorted(d: DirModel, i: int) -> bool
    decreases d, d.dirs.len() - i,
{
    if 0 <= i < d.dirs.len() {
        all_files_sorted(d.dirs[i]) && children_files_sorted(d, i + 1)
    } else {
        true
    }
}

proof fn lemma_children_sorted_child(d: DirModel, i: int, k: int)
    requires
        0 <= i <= k < d.dirs.len(),
        children_files_sorted(d, i),
    ensures
        all_files_sorted(d.dirs[k]),
    decreases k - i,
{
    if i < k {
        lemma_children_sorted_child(d, i + 1, k);
    }
}

proof fn lemma_children_sorted_same(d: DirModel, e: DirModel, i: int)
    requires
        e.dirs == d.dirs,
        children_files_sorted(d, i),
    ensures
        children_files_sorted(e, i),
    decreases d.dirs.len() - i,
{
    if 0 <= i < d.dirs.len() {
        lemma_children_sorted_same(d, e, i + 1);
    }
}

proof fn lemma_children_sorted_update(d: DirModel, e: DirModel, i: int, k: int)
    requires
        0 <= k < d.dirs.len(),
        e.dirs == d.dirs.update(k, e.dirs[k]),
        all_files_sorted(e.dirs[k]),
        children_files_sorted(d, i),
    ensures
        children_files_sorted(e, i),
    decreases d.dirs.len() - i,
{
    if 0 <= i < d.dirs.len() {
        lemma_children_sorted_update(d, e, i + 1, k);
    }
}

proof fn lemma_children_sorted_insert(d: DirModel, e: DirModel, i: int, p: int)
    requires
        0 <= p <= d.dirs.len(),
        0 <= i,
        e.dirs.len() == d.dirs.len() + 1,
        e.dirs == d.dirs.insert(p, e.dirs[p]),
        all_files_sorted(e.dirs[p]),
        i <= p ==> children_files_sorted(d, i),
        i > p ==> children_files_sorted(d, i - 1),
    ensures
        children_files_sorted(e, i),
    decreases e.dirs.len() - i,
{
    if i < e.dirs.len() {
        if i > p {
            assert(e.dirs[i] == d.dirs[i - 1]);
        }
        lemma_children_sorted_insert(d, e, i + 1, p);
    }
}

/// Adding a file keeps the files of every directory ordered by lowercased
/// name, whatever order the directories are in.
pub proof fn lemma_insert_keeps_files_sorted(d: DirModel, segs: Seq<Seq<char>>, f: FileModel, sep: char)
    requires
        all_files_sorted(d),
    ensures
        all_files_sorted(insert_path(d, segs, f, sep)),
    decreases segs.len(),
{
    let r = insert_path(d, segs, f, sep);
    if segs.len() == 0 {
        lemma_files_insert_sorted(d.files, f);
        assert(r.dirs == d.dirs);
        lemma_children_sorted_same(d, r, 0);
    } else {
        let i = dir_index(d.dirs, segs[0], 0);
        lemma_dir_index(d.dirs, segs[0], 0);
        if i >= 0 {
            let c = insert_path(d.dirs[i], segs.drop_first(), f, sep);
            lemma_children_sorted_child(d, 0, i);
            lemma_insert_keeps_files_sorted(d.dirs[i], segs.drop_first(), f, sep);
            assert(r.dirs == d.dirs.update(i, c));
            lemma_children_sorted_update(d, r, 0, i);
            assert(r.files == d.files);
        } else {
            let child = DirModel {
                name: segs[0],
                path: join_path(d.path, segs[0], sep),
                dirs: seq![],
                files: seq![],
            };
            assert(all_files_sorted(child));
            let c = insert_path(child, segs.drop_first(), f, sep);
            lemma_insert_keeps_files_sorted(child, segs.drop_first(), f, sep);
            let p = dir_slot(d.dirs, segs[0], 0);
            lemma_dir_slot(d.dirs, segs[0], 0);
            assert(r.dirs == d.dirs.insert(p, c));
            assert(r.dirs[p] == c);
            lemma_children_sorted_insert(d, r, 0, p);
            assert(r.files == d.files);
        }
    }
}

} // verus!
