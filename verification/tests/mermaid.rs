use mdreader::mermaid::{
    file_uri, mermaid_cache_failure_markdown, mermaid_cache_key, mermaid_error_markdown,
    mermaid_markdown, mermaid_panic_markdown, mermaid_svg_file_name, svg_with_rendering_hints,
};
use mdreader::preprocess::{mermaid_diagrams, preprocess_markdown};

// The renderer settings the reader uses.
fn reader_options() -> mermaid_rs_renderer::RenderOptions {
    let mut options = mermaid_rs_renderer::RenderOptions::modern()
        .with_node_spacing(60.0)
        .with_rank_spacing(64.0);
    options.theme.font_size = 16.0;
    options.theme.primary_border_color = "#64748B".into();
    options.theme.line_color = "#334155".into();
    options.theme.cluster_border = "#94A3B8".into();
    options.theme.sequence_actor_border = "#64748B".into();
    options.theme.sequence_actor_line = "#475569".into();
    options.layout.node_padding_x = 34.0;
    options.layout.node_padding_y = 18.0;
    options.layout.label_line_height = 1.4;
    options.layout.max_label_width_chars = 24;
    let flowchart = &mut options.layout.flowchart;
    flowchart.auto_spacing.min_spacing = 36.0;
    flowchart.auto_spacing.dense_scale_floor = 0.85;
    for bucket in &mut flowchart.auto_spacing.buckets {
        bucket.scale = bucket.scale.max(0.85);
    }
    flowchart.objective.max_aspect_ratio = 6.0;
    flowchart.routing.occupancy_weight = 1.4;
    options
}

#[test]
fn renders_mermaid_without_a_browser() {
    let source = "```mermaid\nflowchart LR\nA --> B\n```\n";
    let diagrams = mermaid_diagrams(source);
    assert_eq!(diagrams.len(), 1);
    let svg = mermaid_rs_renderer::render_with_options(&diagrams[0], reader_options())
        .expect("diagram renders");
    let svg = svg_with_rendering_hints(&svg);
    assert!(svg.contains("shape-rendering=\"geometricPrecision\""));
    let svg_path = format!("/tmp/mdreader-mermaid-v4/{}", mermaid_svg_file_name(&diagrams[0]));
    let rendered_diagrams = vec![mermaid_markdown(&file_uri(&svg_path))];
    let (rendered, _, count) = preprocess_markdown(source, &rendered_diagrams);
    assert_eq!(count, 1);
    assert!(rendered.contains("file://"));
    assert!(rendered.contains(".svg"));
    assert!(rendered.contains("data-mdreader-mermaid"));
}

#[test]
fn cache_key_is_the_blake3_hex_digest() {
    assert_eq!(
        mermaid_cache_key(""),
        "af1349b9f5f9a1a6a0404dea36dcc9499bcb25c9adc112b7cc9a93cae41f3262"
    );
    let source = "flowchart LR\nA --> B\n";
    assert_eq!(mermaid_cache_key(source), blake3::hash(source.as_bytes()).to_hex().to_string());
    assert_eq!(mermaid_cache_key(source), mermaid_cache_key(source));
    assert_ne!(mermaid_cache_key(source), mermaid_cache_key("flowchart TD\n"));
    let name = mermaid_svg_file_name(source);
    assert_eq!(name.len(), 68);
    assert!(name.ends_with(".svg"));
    assert!(name.starts_with(&mermaid_cache_key(source)));
}

#[test]
fn placeholder_and_uris() {
    assert_eq!(
        mermaid_markdown("file:///tmp/a.svg"),
        "\n<div data-mdreader-mermaid=\"file:///tmp/a.svg\"></div>\n\n"
    );
    assert_eq!(file_uri("/tmp/a.svg"), "file:///tmp/a.svg");
    assert_eq!(file_uri("C:\\Temp\\a.svg"), "file:///C:/Temp/a.svg");
    assert_eq!(file_uri("\\\\server\\share"), "file:////server/share");
}

#[test]
fn only_the_first_svg_tag_gets_hints() {
    assert_eq!(
        svg_with_rendering_hints("<?xml?><svg width=\"1\"><svg x=\"2\"/></svg>"),
        "<?xml?><svg shape-rendering=\"geometricPrecision\" text-rendering=\"optimizeLegibility\" width=\"1\"><svg x=\"2\"/></svg>"
    );
    assert_eq!(svg_with_rendering_hints("<svg>"), "<svg>");
}

#[test]
fn failure_snippets_keep_the_diagram_source() {
    assert_eq!(
        mermaid_error_markdown("bad\r\nsyntax\n", "A-->"),
        "\n> **Mermaid 图表无法渲染：** bad  syntax \n\n```mermaid\nA-->\n```\n\n"
    );
    assert_eq!(
        mermaid_panic_markdown("A-->"),
        "\n> **Mermaid 图表渲染异常**\n\n```mermaid\nA-->\n```\n\n"
    );
    assert_eq!(
        mermaid_cache_failure_markdown("disk full"),
        "\n> **Mermaid 缓存写入失败：** disk full\n\n"
    );
}

#[test]
fn svg_file_names_append_the_extension() {
    assert_eq!(mdreader::mermaid::svg_file_name("abc"), "abc.svg");
    assert_eq!(mdreader::mermaid::svg_file_name(""), ".svg");
}
