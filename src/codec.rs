//! The content codec: inline content fields and placeholders.
use vstd::prelude::*;
use vstd::string::*;
use base64::Engine;
use crate::text::{chars_of, ends_at, ends_with, find_char, is_text, matches_at, occurs_at, position_of};

verus! {

/// What the data-URL decoder yields for a value: its decoded body, or none
/// where the value is not a data URL that decodes.
pub uninterp spec fn data_url_body(s: Seq<char>) -> Option<Seq<u8>>;

/// The standard padded base64 text of some bytes.
pub uninterp spec fn base64_text(b: Seq<u8>) -> Seq<char>;

/// Relies on `data_url::DataUrl::process` and `DataUrl::decode_to_vec`: the
/// body decoded from a data URL (percent-encoded or forgiving base64), or
/// none where the URL or its base64 body is malformed.
#[verifier::external_body]
fn data_url_decode(s: &str) -> (r: Option<Vec<u8>>)
    ensures
        r is None <==> data_url_body(s@) is None,
        r is Some ==> data_url_body(s@) == Some(r.unwrap()@),
{
    match data_url::DataUrl::process(s) {
        Ok(url) => url.decode_to_vec().ok().map(|(body, _)| body),
        Err(_) => None,
    }
}

/// Relies on `base64::engine::general_purpose::STANDARD.encode`, which panics
/// only where the length of its output overflows `usize`.
#[verifier::external_body]
fn base64_encode(b: &[u8]) -> (r: String)
    requires
        b@.len() / 3 * 4 + 4 <= usize::MAX,
    ensures
        r@ == base64_text(b@),
{
    base64::engine::general_purpose::STANDARD.encode(b)
}

pub open spec fn scheme() -> Seq<char> {
    "data:"@
}

pub open spec fn inline_mark() -> Seq<char> {
    ";base64"@
}

pub open spec fn placeholder_mark() -> Seq<char> {
    ";base64-placeholder"@
}

/// Whether a value is in the data-URL scheme.
pub open spec fn has_scheme(s: Seq<char>) -> bool {
    occurs_at(s, 0, scheme())
}

/// Where the header of a value ends: its first comma after the scheme, or its length.
pub open spec fn header_end(s: Seq<char>) -> int {
    find_char(s, ',', scheme().len() as int)
}

/// The text between the scheme and the first comma.
pub open spec fn header(s: Seq<char>) -> Seq<char> {
    s.subrange(scheme().len() as int, header_end(s))
}

/// `<scheme><media-type>;base64-placeholder,<external-ref>`.
pub open spec fn is_placeholder(s: Seq<char>) -> bool {
    &&& has_scheme(s)
    &&& header_end(s) < s.len()
    &&& ends_with(header(s), placeholder_mark())
}

pub open spec fn placeholder_media_type(s: Seq<char>) -> Seq<char> {
    header(s).subrange(0, header(s).len() - placeholder_mark().len())
}

pub open spec fn placeholder_ref(s: Seq<char>) -> Seq<char> {
    s.subrange(header_end(s) + 1, s.len() as int)
}

/// Inline content: a value in the scheme that is not a placeholder.
pub open spec fn is_inline(s: Seq<char>) -> bool {
    has_scheme(s) && !is_placeholder(s)
}

/// The media type written in an inline value's header.
pub open spec fn inline_media_type(s: Seq<char>) -> Seq<char> {
    if ends_with(header(s), inline_mark()) {
        header(s).subrange(0, header(s).len() - inline_mark().len())
    } else {
        header(s)
    }
}

/// The bytes that an inline value carries; none where it is malformed.
pub open spec fn inline_body(s: Seq<char>) -> Option<Seq<u8>> {
    if header_end(s) < s.len() {
        data_url_body(s)
    } else {
        None
    }
}

pub open spec fn inline_text(media: Seq<char>, bytes: Seq<u8>) -> Seq<char> {
    "data:"@ + media + ";base64,"@ + base64_text(bytes)
}

pub open spec fn placeholder_text(media: Seq<char>, location: Seq<char>) -> Seq<char> {
    "data:"@ + media + ";base64-placeholder,"@ + location
}

/// What `decode` makes of a content field's value.
pub enum Decoded {
    NotInline,
    Inline { bytes: Vec<u8>, media_type: String },
    Malformed,
}

/// Recognises inline content and decodes it.
pub fn decode(value: &str) -> (r: Decoded)
    ensures
        !is_inline(value@) ==> r is NotInline,
        is_inline(value@) && inline_body(value@) is None ==> r is Malformed,
        is_inline(value@) && inline_body(value@) is Some ==> (r matches Decoded::Inline {
            bytes,
            media_type,
        } && bytes@ == inline_body(value@).unwrap() && media_type@ == inline_media_type(value@)),
{
    let cs = chars_of(value);
    if !matches_at(&cs, 0, "data:") {
        return Decoded::NotInline;
    }
    proof {
        reveal_strlit("data:");
        crate::text::lemma_find_char(cs@, ',', 5);
    }
    let k = position_of(&cs, ',', 5);
    if k < cs.len() && ends_at(&cs, 5, k, ";base64-placeholder") {
        return Decoded::NotInline;
    }
    if k == cs.len() {
        return Decoded::Malformed;
    }
    match data_url_decode(value) {
        None => Decoded::Malformed,
        Some(bytes) => {
            proof {
                reveal_strlit(";base64");
            }
            let end = if ends_at(&cs, 5, k, ";base64") {
                k - 7
            } else {
                k
            };
            let media = value.substring_char(5, end);
            Decoded::Inline { bytes, media_type: String::from_str(media) }
        },
    }
}

/// Reads a placeholder: its media type and its external reference.
pub fn decode_placeholder(value: &str) -> (r: Option<(String, String)>)
    ensures
        r is Some <==> is_placeholder(value@),
        r is Some ==> r.unwrap().0@ == placeholder_media_type(value@) && r.unwrap().1@
            == placeholder_ref(value@),
{
    let cs = chars_of(value);
    if !matches_at(&cs, 0, "data:") {
        return None;
    }
    proof {
        reveal_strlit("data:");
        reveal_strlit(";base64-placeholder");
        crate::text::lemma_find_char(cs@, ',', 5);
    }
    let k = position_of(&cs, ',', 5);
    if k < cs.len() && ends_at(&cs, 5, k, ";base64-placeholder") {
        let media = value.substring_char(5, k - 19);
        let location = value.substring_char(k + 1, cs.len());
        Some((String::from_str(media), String::from_str(location)))
    } else {
        None
    }
}

/// The inline form around an already encoded body.
pub fn inline_from_encoded(media_type: &str, encoded: &str) -> (r: String)
    ensures
        r@ == "data:"@ + media_type@ + ";base64,"@ + encoded@,
{
    let mut r = String::from_str("data:");
    r.append(media_type);
    r.append(";base64,");
    r.append(encoded);
    r
}

/// The inline form of some bytes.
pub fn encode_inline(bytes: &[u8], media_type: &str) -> (r: String)
    requires
        bytes@.len() / 3 * 4 + 4 <= usize::MAX,
    ensures
        r@ == inline_text(media_type@, bytes@),
{
    let body = base64_encode(bytes);
    inline_from_encoded(media_type, body.as_str())
}

/// The placeholder that refers to an external location.
pub fn encode_placeholder(media_type: &str, location: &str) -> (r: String)
    ensures
        r@ == placeholder_text(media_type@, location@),
{
    let mut r = String::from_str("data:");
    r.append(media_type);
    r.append(";base64-placeholder,");
    r.append(location);
    r
}

/// The file extension given to a synthesized name, by media type.
pub open spec fn extension_of(media: Seq<char>) -> Seq<char> {
    if media == "application/json"@ {
        "json"@
    } else if media == "application/yaml"@ || media == "text/yaml"@ || media
        == "application/x-yaml"@ || media == "text/x-yaml"@ {
        "yaml"@
    } else if media == "application/xml"@ || media == "text/xml"@ {
        "xml"@
    } else if media == "text/html"@ {
        "html"@
    } else if media == "application/javascript"@ {
        "js"@
    } else if media == "text/css"@ {
        "css"@
    } else {
        "data"@
    }
}

pub fn extension_for(media: &String) -> (r: &'static str)
    ensures
        r@ == extension_of(media@),
{
    if is_text(media, "application/json") {
        "json"
    } else if is_text(media, "application/yaml") || is_text(media, "text/yaml") || is_text(
        media,
        "application/x-yaml",
    ) || is_text(media, "text/x-yaml") {
        "yaml"
    } else if is_text(media, "application/xml") || is_text(media, "text/xml") {
        "xml"
    } else if is_text(media, "text/html") {
        "html"
    } else if is_text(media, "application/javascript") {
        "js"
    } else if is_text(media, "text/css") {
        "css"
    } else {
        "data"
    }
}

} // verus!
