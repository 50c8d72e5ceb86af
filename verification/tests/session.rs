use mdreader::paths::same_path;
use mdreader::listing::{sort_markdown_files, MarkdownFile};
use mdreader::session::{classify_drop, remember_recent, shortcuts, DropAction, LoadTracker, RecentDocument};

fn recent(path: &str) -> RecentDocument {
    RecentDocument { path: path.to_string(), name: path.to_string() }
}

#[test]
fn recent_documents_move_to_the_front_once() {
    let mut recents = vec![recent("a"), recent("b"), recent("c")];
    remember_recent(&mut recents, "b", "B");
    let paths: Vec<&str> = recents.iter().map(|r| r.path.as_str()).collect();
    assert_eq!(paths, vec!["b", "a", "c"]);
    assert_eq!(recents[0].name, "B");
}

#[test]
fn recent_documents_are_capped_at_ten() {
    let mut recents: Vec<RecentDocument> = (0..10).map(|i| recent(&i.to_string())).collect();
    remember_recent(&mut recents, "new", "new");
    assert_eq!(recents.len(), 10);
    assert_eq!(recents[0].path, "new");
    assert_eq!(recents[9].path, "8");
}

#[test]
fn only_the_latest_load_is_used() {
    let mut tracker = LoadTracker::new();
    let first = tracker.request_document("/a.md").unwrap();
    assert_eq!(tracker.request_document("/a.md"), None);
    let second = tracker.request_document("/b.md").unwrap();
    assert!(second > first);
    assert!(tracker.is_loading());
    assert!(!tracker.accept_document(first));
    assert!(tracker.is_loading());
    assert!(tracker.accept_document(second));
    assert!(!tracker.is_loading());
    let w1 = tracker.request_workspace();
    let w2 = tracker.request_workspace();
    assert!(!tracker.accept_workspace(w1));
    assert!(tracker.accept_workspace(w2));
    assert!(!tracker.is_loading());
}

#[test]
fn drops_open_folders_and_markdown_only() {
    assert!(matches!(classify_drop(true, "docs"), DropAction::OpenWorkspace));
    assert!(matches!(classify_drop(false, "a.md"), DropAction::OpenDocument));
    assert!(matches!(classify_drop(false, "a.png"), DropAction::Refuse));
}

#[test]
fn keyboard_shortcuts() {
    let s = shortcuts(true, false, false, true, false);
    assert!(s.open_file && !s.open_folder && !s.toggle_sidebar && !s.focus_search);
    let s = shortcuts(true, true, true, true, true);
    assert!(!s.open_file && s.open_folder && s.toggle_sidebar && s.focus_search);
    let s = shortcuts(true, true, true, false, false);
    assert!(!s.open_file && !s.open_folder && !s.toggle_sidebar && !s.focus_search);
}

#[test]
fn listings_are_ordered_by_lowercased_path() {
    let file = |rel: &str| MarkdownFile {
        path: format!("/r/{rel}"),
        name: rel.to_string(),
        relative_path: rel.to_string(),
        depth: rel.matches('/').count(),
    };
    let sorted = sort_markdown_files(vec![file("b.md"), file("A/z.md"), file("a/y.md"), file("B.md")]);
    let paths: Vec<&str> = sorted.iter().map(|f| f.relative_path.as_str()).collect();
    assert_eq!(paths, vec!["a/y.md", "A/z.md", "b.md", "B.md"]);
}

#[test]
fn paths_compare_by_component() {
    assert!(same_path("docs/./a.md", "docs/a.md"));
    assert!(same_path("docs//a.md", "docs/a.md"));
    assert!(same_path("docs/a.md/", "docs/a.md"));
    assert!(same_path("/", "//"));
    assert!(same_path("./a.md", "././a.md"));
    assert!(!same_path("./a.md", "a.md"));
    assert!(!same_path("/a.md", "a.md"));
    assert!(!same_path("docs/../a.md", "a.md"));
    assert!(!same_path("docs/a.md", "docs/b.md"));
}

#[test]
fn a_document_loading_under_another_spelling_is_not_requested_again() {
    let mut tracker = LoadTracker::new();
    let first = tracker.request_document("docs/a.md");
    assert_eq!(first, Some(1));
    assert_eq!(tracker.request_document("docs/./a.md"), None);
    assert_eq!(tracker.request_document("docs//a.md"), None);
    assert_eq!(tracker.request_document("docs/b.md"), Some(2));
}

#[test]
fn recent_documents_are_one_entry_per_path() {
    let mut recents = vec![recent("docs/a.md"), recent("b.md")];
    remember_recent(&mut recents, "docs/./a.md", "a");
    let paths: Vec<&str> = recents.iter().map(|r| r.path.as_str()).collect();
    assert_eq!(paths, vec!["docs/./a.md", "b.md"]);
}
