use std::time::{Duration, Instant};

use mdreader::markdown::{is_closing_fence, opening_fence, parse_atx_heading};
use mdreader::pages::split_markdown_pages;
use mdreader::preprocess::{mermaid_diagrams, preprocess_markdown};

#[test]
fn adds_stable_heading_ids_without_touching_code_fences() {
    let source = "# 标题\n\n```rust\n# not a heading\n```\n\n## Second\n";
    assert!(mermaid_diagrams(source).is_empty());
    let (rendered, headings, _) = preprocess_markdown(source, &Vec::new());
    assert_eq!(headings.len(), 2);
    assert!(rendered.contains("# 标题 {#mdreader-heading-1}"));
    assert!(rendered.contains("# not a heading"));
}

#[test]
fn preprocesses_a_megabyte_without_blocking_budget_regression() {
    let section = "## Long document section\n\nText, table data, and `inline code`.\n\n";
    let repeats = 1_048_576 / section.len() + 1;
    let source = section.repeat(repeats);
    let started = Instant::now();
    let (rendered, headings, count) = preprocess_markdown(&source, &Vec::new());
    let pages = split_markdown_pages(&rendered);

    assert_eq!(count, 0);
    assert_eq!(headings.len(), repeats);
    assert!(rendered.len() > source.len());
    assert!(pages.len() > 100);
    assert!(
        started.elapsed() < Duration::from_secs(1),
        "1 MB Markdown preprocessing exceeded the worker budget"
    );
}

#[test]
fn whole_output_of_a_small_document() {
    let source = "Intro\n# One\n## Two {#custom}\n### Three ###\r\n####### seven\n#nospace\n    # indented\n";
    let (rendered, headings, count) = preprocess_markdown(source, &Vec::new());
    assert_eq!(count, 0);
    assert_eq!(
        rendered,
        "Intro\n# One {#mdreader-heading-1}\n## Two {#custom}\n### Three ### {#mdreader-heading-3}\r\n####### seven\n#nospace\n    # indented\n"
    );
    assert_eq!(headings.len(), 3);
    assert_eq!(headings[0].id, "mdreader-heading-1");
    assert_eq!(headings[0].title, "One");
    assert_eq!(headings[0].level, 1);
    assert_eq!(headings[1].id, "custom");
    assert_eq!(headings[1].title, "Two");
    assert_eq!(headings[1].level, 2);
    assert_eq!(headings[2].id, "mdreader-heading-3");
    assert_eq!(headings[2].title, "Three");
    assert_eq!(headings[2].level, 3);
    assert!(headings.iter().all(|h| h.page_index == 0));
}

#[test]
fn closed_mermaid_fences_are_replaced_in_order() {
    let source = "a\n```mermaid\nflowchart LR\nA --> B\n```\nb\n~~~ Mermaid\nx\n~~~~\n```mermaid\nopen\n";
    let diagrams = mermaid_diagrams(source);
    assert_eq!(diagrams, vec!["flowchart LR\nA --> B\n".to_string(), "x\n".to_string()]);
    let rendered = vec!["<first>\n".to_string(), "<second>\n".to_string()];
    let (out, headings, count) = preprocess_markdown(source, &rendered);
    assert_eq!(count, 2);
    assert!(headings.is_empty());
    assert_eq!(out, "a\n<first>\nb\n<second>\n```mermaid\nopen\n");
}

#[test]
fn headings_inside_code_fences_are_left_alone() {
    let source = "~~~\n# a\n```\n# b\n~~~\n# c\n";
    let (out, headings, _) = preprocess_markdown(source, &Vec::new());
    assert_eq!(headings.len(), 1);
    assert_eq!(headings[0].title, "c");
    assert_eq!(out, "~~~\n# a\n```\n# b\n~~~\n# c {#mdreader-heading-1}\n");
}

#[test]
fn empty_explicit_id_falls_back_to_an_automatic_one() {
    let (out, headings, _) = preprocess_markdown("# Title {#}\n", &Vec::new());
    assert_eq!(headings[0].title, "Title");
    assert_eq!(headings[0].id, "mdreader-heading-1");
    assert_eq!(out, "# Title {#}\n");
}

#[test]
fn fence_and_heading_lines() {
    assert_eq!(opening_fence("```rust\n"), Some(('`', 3, "rust".to_string())));
    assert_eq!(opening_fence("   ~~~~  py extra\n"), Some(('~', 4, "py".to_string())));
    assert_eq!(opening_fence("    ```\n"), None);
    assert_eq!(opening_fence("``\n"), None);
    assert_eq!(opening_fence("```"), Some(('`', 3, String::new())));
    assert!(is_closing_fence("```\n", '`', 3));
    assert!(is_closing_fence("  `````  \n", '`', 3));
    assert!(!is_closing_fence("``\n", '`', 3));
    assert!(!is_closing_fence("```x\n", '`', 3));
    assert_eq!(
        parse_atx_heading("  ## Hello  ##  \n"),
        Some((2, "Hello".to_string(), None))
    );
    assert_eq!(
        parse_atx_heading("# Hi {# anchor }\n"),
        Some((1, "Hi".to_string(), Some("anchor".to_string())))
    );
    assert_eq!(parse_atx_heading("#\n"), Some((1, String::new(), None)));
    assert_eq!(parse_atx_heading("#"), None);
    assert_eq!(parse_atx_heading("####### x"), None);
    assert_eq!(parse_atx_heading("\u{3000}\u{3000}# x"), None);
}

#[test]
fn heading_titles_are_trimmed_and_explicit_ids_are_not_empty() {
    assert_eq!(
        parse_atx_heading("#   Title   {#  id }"),
        Some((1, "Title".to_string(), Some("id".to_string())))
    );
    assert_eq!(parse_atx_heading("## x {# }"), Some((2, "x".to_string(), None)));
    assert_eq!(parse_atx_heading("###\t  spaced  \t"), Some((3, "spaced".to_string(), None)));
}

#[test]
fn output_is_the_source_with_anchors_inserted() {
    let source = "# A\r\ntext\n## B {#b}\n```\n# code\n```\n### C";
    let (rendered, headings, _) = preprocess_markdown(source, &Vec::new());
    assert_eq!(
        rendered,
        "# A {#mdreader-heading-1}\r\ntext\n## B {#b}\n```\n# code\n```\n### C {#mdreader-heading-3}"
    );
    assert_eq!(headings.len(), 3);
    let plain = "no headings here\n```\n# inside\n```\n";
    let (same, none, _) = preprocess_markdown(plain, &Vec::new());
    assert_eq!(same, plain);
    assert!(none.is_empty());
}

#[test]
fn every_outline_id_is_anchored_in_the_output() {
    let source = "# One\ntext\n## Two {#two}\n```\n# no\n```\n#### Four\n";
    let (rendered, headings, _) = preprocess_markdown(source, &Vec::new());
    let anchored: Vec<(usize, Option<String>)> = rendered
        .split_inclusive('\n')
        .filter(|l| !l.starts_with("# no"))
        .filter_map(|l| parse_atx_heading(l))
        .map(|(level, _, id)| (level, id))
        .collect();
    let expected: Vec<(usize, Option<String>)> =
        headings.iter().map(|h| (h.level, Some(h.id.clone()))).collect();
    assert_eq!(anchored, expected);
}

#[test]
fn outline_ids_are_anchored_around_rendered_diagrams() {
    let source = "# One\n```mermaid\nflowchart LR\n# not a heading\n```\n## Two\n```\ncode\n```\n### Three {#three}\n";
    let diagrams = mermaid_diagrams(source);
    assert_eq!(diagrams.len(), 1);
    let rendered = vec![mdreader::mermaid::mermaid_markdown("file:///tmp/d.svg")];
    let (output, headings, count) = preprocess_markdown(source, &rendered);
    assert_eq!(count, 1);
    let mut fence = false;
    let mut anchored: Vec<(usize, Option<String>)> = Vec::new();
    for line in output.split_inclusive('\n') {
        if !fence {
            if opening_fence(line).is_some() {
                fence = true;
                continue;
            }
            if let Some((level, _, id)) = parse_atx_heading(line) {
                anchored.push((level, id));
            }
        } else if is_closing_fence(line, '`', 3) {
            fence = false;
        }
    }
    let expected: Vec<(usize, Option<String>)> =
        headings.iter().map(|h| (h.level, Some(h.id.clone()))).collect();
    assert_eq!(expected.len(), 3);
    assert_eq!(anchored, expected);
}
