use mdreader::names::{is_markdown, is_visible_entry, strip_markdown_extension};

#[test]
fn strips_supported_extensions_case_insensitively() {
    assert_eq!(strip_markdown_extension("README.MD"), "README");
    assert_eq!(strip_markdown_extension("notes.markdown"), "notes");
    assert_eq!(strip_markdown_extension("archive.zip"), "archive.zip");
}

#[test]
fn recognizes_supported_markdown_extensions() {
    assert!(is_markdown("README.md"));
    assert!(is_markdown("notes.MARKDOWN"));
    assert!(is_markdown("draft.mdx"));
    assert!(!is_markdown("photo.png"));
}

#[test]
fn hidden_and_extensionless_names_are_not_markdown() {
    assert!(!is_markdown(".md"));
    assert!(!is_markdown("md"));
    assert!(!is_markdown(".."));
    assert!(!is_markdown("notes."));
    assert!(is_markdown(".notes.md"));
    assert!(is_markdown("a.b.TXT"));
    assert!(is_markdown("x.mdown"));
    assert!(is_markdown("x.Mkd"));
}

#[test]
fn strip_splits_at_the_last_dot_only() {
    assert_eq!(strip_markdown_extension(".md"), "");
    assert_eq!(strip_markdown_extension("a.b.md"), "a.b");
    assert_eq!(strip_markdown_extension("README"), "README");
    assert_eq!(strip_markdown_extension("报告.md"), "报告");
    assert_eq!(strip_markdown_extension("a.md.zip"), "a.md.zip");
}

#[test]
fn markdown_names_lose_exactly_their_extension() {
    for name in ["a.md", "b.MARKDOWN", "c.d.txt", "e.mdx"] {
        assert!(is_markdown(name));
        let stem = strip_markdown_extension(name);
        assert!(stem.len() < name.len());
        assert!(name.starts_with(stem));
        assert_eq!(&name[stem.len()..stem.len() + 1], ".");
    }
}

#[test]
fn scan_skips_hidden_and_build_directories() {
    assert!(is_visible_entry(0, ".hidden"));
    assert!(is_visible_entry(0, "target"));
    assert!(!is_visible_entry(1, ".git"));
    assert!(!is_visible_entry(2, "node_modules"));
    assert!(!is_visible_entry(1, "target"));
    assert!(!is_visible_entry(1, "dist"));
    assert!(!is_visible_entry(1, "build"));
    assert!(!is_visible_entry(1, "vendor"));
    assert!(is_visible_entry(1, "docs"));
    assert!(is_visible_entry(3, "Target"));
}
