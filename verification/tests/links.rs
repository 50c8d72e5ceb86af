use mdreader::links::{
    image_data_uri, image_mime_type, image_source_path, only_image_type, split_markdown_link,
};

#[test]
fn image_sources_lose_query_and_fragment() {
    assert_eq!(image_source_path("img/a%20b.png?x=1#f"), Some("img/a b.png".to_string()));
    assert_eq!(image_source_path("pic.png#top"), Some("pic.png".to_string()));
    assert_eq!(image_source_path("%E5%9B%BE.png"), Some("图.png".to_string()));
    assert_eq!(image_source_path("100%zz.png"), Some("100%zz.png".to_string()));
    assert_eq!(image_source_path("bad%ff.png"), None);
}

#[test]
fn links_split_at_the_first_hash() {
    assert_eq!(
        split_markdown_link("docs/guide%20one.md#intro"),
        Some(("docs/guide one.md".to_string(), Some("intro".to_string())))
    );
    assert_eq!(split_markdown_link("a.md"), Some(("a.md".to_string(), None)));
    assert_eq!(split_markdown_link("#top"), Some((String::new(), Some("top".to_string()))));
    assert_eq!(split_markdown_link("a.md#b#c"), Some(("a.md".to_string(), Some("b#c".to_string()))));
    assert_eq!(split_markdown_link("%C3%28.md#x"), None);
}

#[test]
fn only_image_types_are_embedded() {
    assert_eq!(image_mime_type("photo.PNG"), Some("image/png".to_string()));
    assert_eq!(image_mime_type("a.svg"), Some("image/svg+xml".to_string()));
    assert_eq!(image_mime_type("notes.md"), None);
    assert_eq!(image_mime_type("README"), None);
    assert_eq!(image_mime_type(".png"), None);
}

#[test]
fn data_uris_use_padded_standard_base64() {
    assert_eq!(image_data_uri("image/png", b"hello"), "data:image/png;base64,aGVsbG8=");
    assert_eq!(image_data_uri("image/gif", b""), "data:image/gif;base64,");
    assert_eq!(image_data_uri("x", b"f"), "data:x;base64,Zg==");
    assert_eq!(image_data_uri("x", b"fo"), "data:x;base64,Zm8=");
    assert_eq!(image_data_uri("x", b"foo"), "data:x;base64,Zm9v");
    assert_eq!(image_data_uri("x", &[0xff, 0xfe, 0x00, 0x3e]), "data:x;base64,//4APg==");
}

#[test]
fn non_image_types_are_dropped() {
    assert_eq!(only_image_type(Some("image/webp".to_string())), Some("image/webp".to_string()));
    assert_eq!(only_image_type(Some("text/markdown".to_string())), None);
    assert_eq!(only_image_type(Some("image".to_string())), None);
    assert_eq!(only_image_type(None), None);
}
