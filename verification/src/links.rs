//! Links and images inside a document: which file a relative link or image
//! source names, and how a local image is embedded.

use base64::Engine;
use vstd::prelude::*;
use vstd::string::StringSliceAdditionalSpecFns;
use vstd::utf8::{decode_utf8, valid_utf8};
use crate::names::file_extension_chars;
use crate::names::file_extension_spec;
use crate::text::{chars_of, string_from_chars};

verus! {

/// Largest image a reader embeds, in bytes.
pub const MAX_IMAGE_BYTES: u64 = 16777216;

/// Value of an ASCII hexadecimal digit, either case (`char::to_digit(16)`).
pub open spec fn hex_value(b: u8) -> Option<u8> {
    if 48 <= b <= 57 {
        Some((b - 48) as u8)
    } else if 97 <= b <= 102 {
        Some((b - 87) as u8)
    } else if 65 <= b <= 70 {
        Some((b - 55) as u8)
    } else {
        None
    }
}

/// Percent-decoding of bytes: every `%` followed by two hexadecimal digits
/// becomes the byte they spell; every other byte stays.
pub open spec fn percent_decoded(s: Seq<u8>) -> Seq<u8>
    decreases s.len(),
{
    if s.len() == 0 {
        seq![]
    } else if s[0] == 37 && s.len() >= 3 && hex_value(s[1]).is_some() && hex_value(s[2]).is_some() {
        seq![(hex_value(s[1]).unwrap() * 16 + hex_value(s[2]).unwrap()) as u8] + percent_decoded(
            s.subrange(3, s.len() as int),
        )
    } else {
        seq![s[0]] + percent_decoded(s.subrange(1, s.len() as int))
    }
}

/// `percent_encoding::percent_decode_str(s).decode_utf8()`: percent-decodes
/// the UTF-8 bytes of `s` and reads the result as UTF-8; `None` when the
/// decoded bytes are not UTF-8.
#[verifier::external_body]
fn percent_decode_utf8(s: &str) -> (r: Option<String>)
    ensures
        match r {
            Some(d) => valid_utf8(percent_decoded(s.spec_bytes())) && d@ == decode_utf8(
                percent_decoded(s.spec_bytes()),
            ),
            None => !valid_utf8(percent_decoded(s.spec_bytes())),
        },
{
    match percent_encoding::percent_decode_str(s).decode_utf8() {
        Ok(decoded) => Some(decoded.into_owned()),
        Err(_) => None,
    }
}

/// The decoded path a link or image source names, when it decodes.
pub open spec fn decoded_path(raw: Seq<char>) -> Option<Seq<char>> {
    let bytes = percent_decoded(crate::links::utf8_of(raw));
    if valid_utf8(bytes) {
        Some(decode_utf8(bytes))
    } else {
        None
    }
}

/// The UTF-8 bytes of a text.
pub open spec fn utf8_of(s: Seq<char>) -> Seq<u8> {
    vstd::utf8::encode_utf8(s)
}

/// Index of the first char of `s` that is one of `a`, `b`, or the length.
pub open spec fn first_of(s: Seq<char>, a: char, b: char, i: int) -> int
    decreases s.len() - i,
{
    if 0 <= i < s.len() && s[i] != a && s[i] != b {
        first_of(s, a, b, i + 1)
    } else {
        i
    }
}

fn first_of_exec(s: &[char], a: char, b: char) -> (r: usize)
    ensures
        r as int == first_of(s@, a, b, 0),
        r <= s@.len(),
{
    let mut i: usize = 0;
    while i < s.len() && s[i] != a && s[i] != b
        invariant
            i <= s@.len(),
            first_of(s@, a, b, 0) == first_of(s@, a, b, i as int),
        decreases s@.len() - i,
    {
        i = i + 1;
    }
    i
}

/// The file an image source names, relative to the document: the source
/// without its query (`?`) or fragment (`#`), percent-decoded; `None` when
/// the decoded bytes are not UTF-8.
pub fn image_source_path(source: &str) -> (r: Option<String>)
    ensures
        match r {
            Some(p) => decoded_path(source@.subrange(0, first_of(source@, '?', '#', 0))) == Some(p@),
            None => decoded_path(source@.subrange(0, first_of(source@, '?', '#', 0))).is_none(),
        },
{
    let chars = chars_of(source);
    let end = first_of_exec(chars.as_slice(), '?', '#');
    let raw = string_from_chars(&chars.as_slice()[0..end]);
    percent_decode_utf8(raw.as_str())
}

/// A relative link split into the file it names and its anchor: the path
/// is what precedes the first `#`, percent-decoded; the anchor is what
/// follows it, if there is a `#`.  `None` when the decoded path is not UTF-8.
pub fn split_markdown_link(href: &str) -> (r: Option<(String, Option<String>)>)
    ensures
        ({
            let h = href@;
            let cut = first_of(h, '#', '#', 0);
            match r {
                Some((p, anchor)) => decoded_path(h.subrange(0, cut)) == Some(p@) && match anchor {
                    Some(a) => cut < h.len() && a@ == h.subrange(cut + 1, h.len() as int),
                    None => cut == h.len(),
                },
                None => decoded_path(h.subrange(0, cut)).is_none(),
            }
        }),
{
    let chars = chars_of(href);
    let n = chars.len();
    let cut = first_of_exec(chars.as_slice(), '#', '#');
    let raw = string_from_chars(&chars.as_slice()[0..cut]);
    let anchor = if cut < n {
        Some(string_from_chars(&chars.as_slice()[cut + 1..n]))
    } else {
        None
    };
    match percent_decode_utf8(raw.as_str()) {
        Some(p) => Some((p, anchor)),
        None => None,
    }
}

/// The first MIME type `mime_guess` lists for a file extension.
pub uninterp spec fn first_mime_for_extension(extension: Seq<char>) -> Option<Seq<char>>;

pub open spec fn opt_view(o: Option<String>) -> Option<Seq<char>> {
    match o {
        Some(s) => Some(s@),
        None => None,
    }
}

/// `mime_guess::from_ext(extension).first_raw()`: the first MIME type the
/// crate's table maps the extension to (compared without regard to ASCII
/// case); an empty extension maps to none.
#[verifier::external_body]
fn first_mime(extension: &str) -> (r: Option<String>)
    ensures
        opt_view(r) == first_mime_for_extension(extension@),
        extension@.len() == 0 ==> r.is_none(),
{
    mime_guess::from_ext(extension).first_raw().map(String::from)
}

/// Whether `s` starts with `image/`.
pub open spec fn is_image_type(s: Seq<char>) -> bool {
    s.len() >= 6 && s.subrange(0, 6) == seq!['i', 'm', 'a', 'g', 'e', '/']
}

/// `mime` when it is an `image/` type.
pub fn only_image_type(mime: Option<String>) -> (r: Option<String>)
    ensures
        opt_view(r) == match opt_view(mime) {
            Some(m) => if is_image_type(m) {
                Some(m)
            } else {
                None
            },
            None => None,
        },
{
    match mime {
        Some(m) => {
            let mc = chars_of(m.as_str());
            let prefix = vec!['i', 'm', 'a', 'g', 'e', '/'];
            if mc.len() >= 6 && crate::text::chars_eq(&mc.as_slice()[0..6], prefix.as_slice()) {
                assert(mc@.subrange(0, 6) =~= seq!['i', 'm', 'a', 'g', 'e', '/']);
                Some(m)
            } else {
                assert(!is_image_type(m@)) by {
                    if is_image_type(m@) {
                        assert(mc@.subrange(0, 6) =~= prefix@);
                    }
                }
                None
            }
        },
        None => None,
    }
}

/// The image MIME type of a file, by the extension of its name: the first
/// type `mime_guess` lists for it, when that is an `image/` type.
pub fn image_mime_type(file_name: &str) -> (r: Option<String>)
    ensures
        opt_view(r) == match file_extension_spec(file_name@) {
            Some(e) => match first_mime_for_extension(e) {
                Some(m) => if is_image_type(m) {
                    Some(m)
                } else {
                    None
                },
                None => None,
            },
            None => None,
        },
{
    let chars = chars_of(file_name);
    let n = chars.len();
    match file_extension_chars(chars.as_slice()) {
        Some(a) => {
            let ext = string_from_chars(&chars.as_slice()[a..n]);
            only_image_type(first_mime(ext.as_str()))
        },
        None => None,
    }
}

/// The standard base64 alphabet.
pub open spec fn base64_char(v: int) -> char {
    "ABCDEFGHIJKLMNOPQRSTUVWXYZabcdefghijklmnopqrstuvwxyz0123456789+/"@[v]
}

/// Standard base64 (RFC 4648) with `=` padding.
pub open spec fn base64_standard(b: Seq<u8>) -> Seq<char>
    decreases b.len(),
{
    if b.len() == 0 {
        seq![]
    } else {
        let x = b[0] as int;
        let y = if b.len() > 1 { b[1] as int } else { 0 };
        let z = if b.len() > 2 { b[2] as int } else { 0 };
        let c1 = base64_char(x / 4);
        let c2 = base64_char((x % 4) * 16 + y / 16);
        let c3 = base64_char((y % 16) * 4 + z / 64);
        let c4 = base64_char(z % 64);
        if b.len() == 1 {
            seq![c1, c2, '=', '=']
        } else if b.len() == 2 {
            seq![c1, c2, c3, '=']
        } else {
            seq![c1, c2, c3, c4] + base64_standard(b.subrange(3, b.len() as int))
        }
    }
}

/// `base64::engine::general_purpose::STANDARD.encode(bytes)`: standard
/// base64 with padding.  The engine panics when the encoded length does not
/// fit in `usize`, which the bound on `bytes` rules out.
#[verifier::external_body]
fn base64_encode(bytes: &[u8]) -> (r: String)
    requires
        bytes@.len() <= usize::MAX / 4 * 3,
    ensures
        r@ == base64_standard(bytes@),
{
    base64::engine::general_purpose::STANDARD.encode(bytes)
}

/// A `data:` URI that embeds an image of type `mime`.
pub fn image_data_uri(mime: &str, bytes: &[u8]) -> (r: String)
    requires
        bytes@.len() <= usize::MAX / 4 * 3,
    ensures
        r@ == "data:"@ + mime@ + ";base64,"@ + base64_standard(bytes@),
{
    let mut r = String::from_str("data:");
    r.append(mime);
    r.append(";base64,");
    let encoded = base64_encode(bytes);
    r.append(encoded.as_str());
    r
}

} // verus!
