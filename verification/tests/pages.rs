use mdreader::pages::{assign_heading_pages, document_statistics, prepare_document, split_markdown_pages};
use mdreader::preprocess::Heading;

fn heading(id: &str) -> Heading {
    Heading { id: id.to_string(), title: String::new(), level: 1, page_index: 7 }
}

#[test]
fn pages_join_back_into_the_document() {
    let mut source = String::new();
    for i in 0..200 {
        source.push_str(&format!("line {i}\n"));
        if i % 10 == 9 {
            source.push('\n');
        }
    }
    let pages = split_markdown_pages(&source);
    assert!(pages.len() > 1);
    assert_eq!(pages.concat(), source);
    assert!(pages.iter().all(|p| !p.is_empty()));
}

#[test]
fn an_empty_document_is_one_empty_page() {
    assert_eq!(split_markdown_pages(""), vec![String::new()]);
}

#[test]
fn pages_do_not_break_inside_code_fences() {
    let mut source = String::from("```\n");
    for _ in 0..70 {
        source.push_str("code\n\n");
    }
    source.push_str("```\n\nafter\n");
    let pages = split_markdown_pages(&source);
    assert_eq!(pages.len(), 2);
    assert!(pages[0].ends_with("```\n\n"));
    assert_eq!(pages[1], "after\n");
}

#[test]
fn headings_are_placed_on_the_page_of_their_anchor() {
    let pages = vec![
        "# a {#one}\n".to_string(),
        "text\n## b {#two}\r\n# again {#one}".to_string(),
    ];
    let mut headings = vec![heading("one"), heading("two"), heading("missing")];
    assign_heading_pages(&pages, &mut headings);
    assert_eq!(headings[0].page_index, 1);
    assert_eq!(headings[1].page_index, 1);
    assert_eq!(headings[2].page_index, 0);
}

#[test]
fn statistics_count_chars_cjk_and_words() {
    assert_eq!(document_statistics(""), (0, 0, 0));
    assert_eq!(document_statistics("中文 text, more_words 42!"), (23, 2, 3));
    assert_eq!(document_statistics("豈a"), (2, 1, 1));
}

#[test]
fn prepared_document_puts_headings_on_pages() {
    let mut source = String::from("# First\n");
    for _ in 0..70 {
        source.push_str("x\n");
    }
    source.push_str("\n# Second\n");
    let prepared = prepare_document(&source, &Vec::new());
    assert_eq!(prepared.pages.len(), 2);
    assert_eq!(prepared.headings.len(), 2);
    assert_eq!(prepared.headings[0].page_index, 0);
    assert_eq!(prepared.headings[1].page_index, 1);
    assert_eq!(prepared.mermaid_count, 0);
    assert_eq!(prepared.character_count, source.chars().count());
}

#[test]
fn a_page_ends_at_the_first_blank_line_from_the_sixty_fourth_line_on() {
    let mut source = String::new();
    for i in 0..63 {
        source.push_str(if i == 10 { "\n" } else { "text\n" });
    }
    source.push_str("\n");
    source.push_str("more\n\n");
    let pages = split_markdown_pages(&source);
    assert_eq!(pages.len(), 2);
    assert_eq!(pages[0].lines().count(), 64);
    assert_eq!(pages[1], "more\n\n");
    let mut longer = String::new();
    for _ in 0..70 {
        longer.push_str("text\n");
    }
    longer.push_str("  \nrest\n");
    let pages = split_markdown_pages(&longer);
    assert_eq!(pages.len(), 2);
    assert!(pages[0].ends_with("  \n"));
    assert_eq!(pages[1], "rest\n");
}
