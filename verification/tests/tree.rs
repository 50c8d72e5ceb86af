use mdreader::tree::{build_workspace, first_file, insert_file, DirectoryNode, FileEntry};

fn entry(relative_path: &str) -> FileEntry {
    let name = relative_path.rsplit('/').next().unwrap().to_string();
    FileEntry { name, path: format!("/root/{relative_path}"), relative_path: relative_path.to_string() }
}

#[test]
fn query_keeps_matching_parent_directories_visible() {
    let mut root = DirectoryNode::default();
    root.directories.push(DirectoryNode {
        name: "guides".into(),
        files: vec![FileEntry {
            name: "fast.md".into(),
            path: "guides/fast.md".into(),
            relative_path: "guides/fast.md".into(),
        }],
        ..Default::default()
    });
    assert!(root.contains_query("fast"));
    assert!(!root.contains_query("missing"));
}

#[test]
fn workspace_groups_files_by_directory() {
    let files = vec![
        entry("b/Zeta.md"),
        entry("a.md"),
        entry("b/alpha.md"),
        entry("b/c/deep.md"),
        entry("A/x.md"),
        entry("b/Alpha.md"),
    ];
    let tree = build_workspace("/root", Some("root"), files, '/');
    assert_eq!(tree.file_count, 6);
    let root = &tree.root_node;
    assert_eq!(root.name, "root");
    assert_eq!(root.path, "/root");
    let names: Vec<&str> = root.directories.iter().map(|d| d.name.as_str()).collect();
    assert_eq!(names, vec!["A", "b"]);
    assert_eq!(root.files.len(), 1);
    let b = &root.directories[1];
    assert_eq!(b.path, "/root/b");
    let files: Vec<&str> = b.files.iter().map(|f| f.name.as_str()).collect();
    assert_eq!(files, vec!["alpha.md", "Alpha.md", "Zeta.md"]);
    assert_eq!(b.directories[0].name, "c");
    assert_eq!(b.directories[0].path, "/root/b/c");
    assert_eq!(first_file(root).unwrap().relative_path, "a.md");
    assert_eq!(first_file(&root.directories[1].directories[0]).unwrap().name, "deep.md");
}

#[test]
fn unnamed_root_is_called_workspace_and_files_are_capped() {
    let files: Vec<FileEntry> = (0..5003).map(|i| entry(&format!("f{i}.md"))).collect();
    let tree = build_workspace("/", None, files, '/');
    assert_eq!(tree.root_node.name, "Workspace");
    assert_eq!(tree.file_count, 5000);
    assert_eq!(tree.root_node.files.len(), 5000);
}

#[test]
fn first_file_searches_directories_in_order() {
    let mut root = DirectoryNode::default();
    root.path = "/w".into();
    insert_file(&mut root, entry("z/one.md"), '/');
    insert_file(&mut root, entry("m/two.md"), '/');
    assert_eq!(first_file(&root).unwrap().relative_path, "m/two.md");
    assert!(first_file(&DirectoryNode::default()).is_none());
    assert_eq!(root.directories[0].path, "/w/m");
}

#[test]
fn query_matches_names_and_paths_in_lower_case() {
    let tree = build_workspace("/r", Some("Notes"), vec![entry("Guides/Intro.md")], '/');
    let root = &tree.root_node;
    assert!(root.contains_query(""));
    assert!(root.contains_query("notes"));
    assert!(!root.contains_query("Notes"));
    assert!(root.contains_query("guides/intro"));
    assert!(root.directories[0].files[0].matches_query("intro"));
    assert!(!root.directories[0].files[0].matches_query("outro"));
}

#[test]
fn a_kept_directory_stays_kept_for_part_of_the_query_and_after_adding_files() {
    let mut root = DirectoryNode::default();
    root.path = "/w".into();
    insert_file(&mut root, entry("guides/fast.md"), '/');
    assert!(root.contains_query("fast"));
    assert!(root.contains_query("as"));
    assert!(root.contains_query(""));
    insert_file(&mut root, entry("guides/a/slow.md"), '/');
    insert_file(&mut root, entry("top.md"), '/');
    assert!(root.contains_query("fast"));
    assert!(!root.contains_query("FAST"));
}

#[test]
fn adding_a_file_leaves_other_directories_as_they_were() {
    let mut root = DirectoryNode::default();
    root.path = "/w".into();
    insert_file(&mut root, entry("a/one.md"), '/');
    insert_file(&mut root, entry("b/two.md"), '/');
    insert_file(&mut root, entry("a/c/three.md"), '/');
    let b = &root.directories[1];
    assert_eq!(b.name, "b");
    assert_eq!(b.files.len(), 1);
    assert_eq!(b.files[0].relative_path, "b/two.md");
    let a = &root.directories[0];
    assert_eq!(a.files.len(), 1);
    assert_eq!(a.directories[0].name, "c");
    assert_eq!(a.directories[0].path, "/w/a/c");
    assert_eq!(a.directories[0].files[0].name, "three.md");
}

#[test]
fn first_file_is_the_first_of_a_pre_order_walk() {
    let mut root = DirectoryNode::default();
    root.path = "/w".into();
    insert_file(&mut root, entry("a/b/deep.md"), '/');
    insert_file(&mut root, entry("c/side.md"), '/');
    root.directories[0].directories.insert(
        0,
        DirectoryNode { name: "0empty".into(), ..Default::default() },
    );
    assert_eq!(first_file(&root).unwrap().relative_path, "a/b/deep.md");
    insert_file(&mut root, entry("a/near.md"), '/');
    assert_eq!(first_file(&root).unwrap().relative_path, "a/near.md");
    let empty = DirectoryNode {
        directories: vec![DirectoryNode::default(), DirectoryNode::default()],
        ..Default::default()
    };
    assert!(first_file(&empty).is_none());
}

#[test]
fn a_cloned_workspace_holds_the_same_tree() {
    let tree = build_workspace("/r", Some("r"), vec![entry("a/x.md"), entry("y.md")], '/');
    let copy = tree.clone();
    assert_eq!(copy.file_count, 2);
    assert_eq!(copy.root_node.files[0].relative_path, "y.md");
    assert_eq!(copy.root_node.directories[0].files[0].path, "/root/a/x.md");
    assert_eq!(copy.root_node.directories[0].path, "/r/a");
}

#[test]
fn files_stay_sorted_whatever_order_the_directories_are_in() {
    let mut root = DirectoryNode::default();
    root.path = "/w".into();
    root.directories.push(DirectoryNode { name: "z".into(), path: "/w/z".into(), ..Default::default() });
    root.directories.push(DirectoryNode { name: "a".into(), path: "/w/a".into(), ..Default::default() });
    insert_file(&mut root, entry("z/b.md"), '/');
    insert_file(&mut root, entry("z/A.md"), '/');
    insert_file(&mut root, entry("a/c.md"), '/');
    insert_file(&mut root, entry("B.md"), '/');
    insert_file(&mut root, entry("a.md"), '/');
    let z: Vec<&str> = root.directories[0].files.iter().map(|f| f.name.as_str()).collect();
    assert_eq!(z, vec!["A.md", "b.md"]);
    let top: Vec<&str> = root.files.iter().map(|f| f.name.as_str()).collect();
    assert_eq!(top, vec!["a.md", "B.md"]);
    assert_eq!(root.directories[1].files[0].name, "c.md");
}
