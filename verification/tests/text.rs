use mdreader::text::{is_whitespace, to_lower_char};

#[test]
fn whitespace_table_matches_char_is_whitespace() {
    for code in 0u32..=0x10FFFF {
        if let Some(c) = char::from_u32(code) {
            assert_eq!(is_whitespace(c), c.is_whitespace(), "U+{code:04X}");
        }
    }
}

#[test]
fn ascii_lowercase_matches_std() {
    for code in 0u32..=0x3000 {
        if let Some(c) = char::from_u32(code) {
            assert_eq!(to_lower_char(c), c.to_ascii_lowercase());
        }
    }
}
