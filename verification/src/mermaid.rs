//! The Markdown that stands in a document in place of a Mermaid diagram,
//! and the name of the file its rendering is cached in.

use vstd::prelude::*;
use vstd::string::StringSliceAdditionalSpecFns;
use crate::text::{chars_of, occurs_at, push_all, string_from_chars};

verus! {

/// The BLAKE3 digest of `input` (`blake3::hash`).
pub uninterp spec fn blake3_digest(input: Seq<u8>) -> Seq<u8>;

/// Lowercase hexadecimal digit of `d` (0 to 15).
pub open spec fn hex_digit(d: int) -> char {
    seq!['0', '1', '2', '3', '4', '5', '6', '7', '8', '9', 'a', 'b', 'c', 'd', 'e', 'f'][d]
}

/// Lowercase hexadecimal encoding, two digits per byte, high digit first.
pub open spec fn lower_hex(bytes: Seq<u8>) -> Seq<char> {
    Seq::new(
        2 * bytes.len(),
        |i: int|
            if i % 2 == 0 {
                hex_digit(bytes[i / 2] as int / 16)
            } else {
                hex_digit(bytes[i / 2] as int % 16)
            },
    )
}

/// `blake3::hash(input).to_hex()`: the 32-byte BLAKE3 digest of `input`, in
/// lowercase hexadecimal (`Hash::to_hex` writes each byte as two digits of
/// `0123456789abcdef`, high nibble first).
#[verifier::external_body]
fn blake3_hex(input: &[u8]) -> (r: String)
    ensures
        r@ == lower_hex(blake3_digest(input@)),
        r@.len() == 64,
{
    blake3::hash(input).to_hex().to_string()
}

/// Key under which the rendering of a diagram is cached: the BLAKE3 digest
/// of the diagram source's UTF-8 bytes, as 64 lowercase hex digits.
pub fn mermaid_cache_key(source: &str) -> (r: String)
    ensures
        r@ == lower_hex(blake3_digest(source.spec_bytes())),
        r@.len() == 64,
{
    blake3_hex(source.as_bytes())
}

/// Name of the SVG file cached under `key`.
pub fn svg_file_name(key: &str) -> (r: String)
    ensures
        r@ == key@ + ".svg"@,
{
    let mut r = String::from_str(key);
    r.append(".svg");
    r
}

/// Name of the SVG file that caches the rendering of `source`.
pub fn mermaid_svg_file_name(source: &str) -> (r: String)
    ensures
        r@ == lower_hex(blake3_digest(source.spec_bytes())) + ".svg"@,
{
    let key = mermaid_cache_key(source);
    svg_file_name(key.as_str())
}

/// `mermaid_markdown`: the placeholder the reader shows a cached SVG for.
pub fn mermaid_markdown(uri: &str) -> (r: String)
    ensures
        r@ == "\n<div data-mdreader-mermaid=\""@ + uri@ + "\"></div>\n\n"@,
{
    let mut r = String::from_str("\n<div data-mdreader-mermaid=\"");
    r.append(uri);
    r.append("\"></div>\n\n");
    r
}

/// `s` with every `'\\'` turned into `'/'`.
pub open spec fn forward_slashes(s: Seq<char>) -> Seq<char> {
    Seq::new(s.len(), |i: int| if s[i] == '\\' { '/' } else { s[i] })
}

/// `file_uri`: a `file:` URI for a path written with either separator.
pub open spec fn file_uri_spec(path: Seq<char>) -> Seq<char> {
    let n = forward_slashes(path);
    if n.len() > 0 && n[0] == '/' {
        "file://"@ + n
    } else {
        "file:///"@ + n
    }
}

pub fn file_uri(path: &str) -> (r: String)
    ensures
        r@ == file_uri_spec(path@),
{
    let p = chars_of(path);
    let mut n: Vec<char> = Vec::new();
    let mut i: usize = 0;
    while i < p.len()
        invariant
            i <= p@.len(),
            n@ =~= forward_slashes(p@.take(i as int)),
        decreases p@.len() - i,
    {
        if p[i] == '\\' {
            n.push('/');
        } else {
            n.push(p[i]);
        }
        i = i + 1;
    }
    assert(p@.take(i as int) =~= p@);
    let tail = string_from_chars(n.as_slice());
    if n.len() > 0 && n[0] == '/' {
        let mut r = String::from_str("file://");
        r.append(tail.as_str());
        r
    } else {
        let mut r = String::from_str("file:///");
        r.append(tail.as_str());
        r
    }
}

/// `svg.replacen("<svg ", ..., 1)`: the first `<svg ` tag gets attributes
/// asking for precise shapes and legible text; the rest stays as it is.
pub open spec fn svg_with_rendering_hints_spec(svg: Seq<char>) -> Seq<char> {
    let tag = "<svg "@;
    if exists|i: int| occurs_at(svg, tag, i) {
        let i = choose|i: int| occurs_at(svg, tag, i) && forall|j: int| 0 <= j < i ==> !occurs_at(svg, tag, j);
        svg.subrange(0, i) + svg_hints_tag() + svg.subrange(i + 5, svg.len() as int)
    } else {
        svg
    }
}

pub open spec fn svg_hints_tag() -> Seq<char> {
    "<svg shape-rendering=\"geometricPrecision\" text-rendering=\"optimizeLegibility\" "@
}

pub fn svg_with_rendering_hints(svg: &str) -> (r: String)
    ensures
        r@ == svg_with_rendering_hints_spec(svg@),
{
    let s = chars_of(svg);
    let tag = chars_of("<svg ");
    proof {
        reveal_strlit("<svg ");
    }
    assert(tag@.len() == 5);
    let n = s.len();
    match crate::text::find(s.as_slice(), tag.as_slice()) {
        Some(i) => {
            let hints = chars_of(
                "<svg shape-rendering=\"geometricPrecision\" text-rendering=\"optimizeLegibility\" ",
            );
            let mut out: Vec<char> = Vec::new();
            push_all(&mut out, &s.as_slice()[0..i]);
            push_all(&mut out, hints.as_slice());
            push_all(&mut out, &s.as_slice()[i + 5..n]);
            proof {
                let tg = "<svg "@;
                assert(exists|k: int| occurs_at(svg@, tg, k));
                let c = choose|k: int| occurs_at(svg@, tg, k) && forall|j: int| 0 <= j < k ==> !occurs_at(svg@, tg, j);
                assert(occurs_at(svg@, tg, i as int));
                if c < i {
                } else if c > i {
                }
                assert(c == i);
            }
            string_from_chars(out.as_slice())
        },
        None => String::from_str(svg),
    }
}

/// `s` with every `'\r'` and `'\n'` turned into a space.
pub open spec fn one_line(s: Seq<char>) -> Seq<char> {
    Seq::new(s.len(), |i: int| if s[i] == '\r' || s[i] == '\n' { ' ' } else { s[i] })
}

/// What stands in place of a diagram the renderer refused: the error on
/// one line, then the diagram source as a Mermaid code block.
pub fn mermaid_error_markdown(error: &str, source: &str) -> (r: String)
    ensures
        r@ == "\n> **Mermaid 图表无法渲染：** "@ + one_line(error@) + "\n\n```mermaid\n"@ + source@
            + "\n```\n\n"@,
{
    let e = chars_of(error);
    let mut n: Vec<char> = Vec::new();
    let mut i: usize = 0;
    while i < e.len()
        invariant
            i <= e@.len(),
            n@ =~= one_line(e@.take(i as int)),
        decreases e@.len() - i,
    {
        if e[i] == '\r' || e[i] == '\n' {
            n.push(' ');
        } else {
            n.push(e[i]);
        }
        i = i + 1;
    }
    assert(e@.take(i as int) =~= e@);
    let line = string_from_chars(n.as_slice());
    let mut r = String::from_str("\n> **Mermaid 图表无法渲染：** ");
    r.append(line.as_str());
    r.append("\n\n```mermaid\n");
    r.append(source);
    r.append("\n```\n\n");
    r
}

/// What stands in place of a diagram whose rendering panicked.
pub fn mermaid_panic_markdown(source: &str) -> (r: String)
    ensures
        r@ == "\n> **Mermaid 图表渲染异常**\n\n```mermaid\n"@ + source@ + "\n```\n\n"@,
{
    let mut r = String::from_str("\n> **Mermaid 图表渲染异常**\n\n```mermaid\n");
    r.append(source);
    r.append("\n```\n\n");
    r
}

/// What stands in place of a diagram whose rendering could not be cached.
pub fn mermaid_cache_failure_markdown(error: &str) -> (r: String)
    ensures
        r@ == "\n> **Mermaid 缓存写入失败：** "@ + error@ + "\n\n"@,
{
    let mut r = String::from_str("\n> **Mermaid 缓存写入失败：** ");
    r.append(error);
    r.append("\n\n");
    r
}

} // verus!
