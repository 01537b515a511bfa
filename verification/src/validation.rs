//! Input validation for the administration console: URL shape, upload
//! type and size, title length, and text sanitisation.

use vstd::prelude::*;
use crate::text::{is_prefix_of, str_starts_with, str_eq};

verus! {

/// Whether the fixed URL pattern accepts a string is named here; the
/// pattern itself stands in the matcher below.
pub uninterp spec fn url_pattern_matches(s: Seq<char>) -> bool;

/// Relies on regex: `Regex::is_match` against the fixed URL pattern is a
/// function of the input string alone. The pattern is a valid regular
/// expression, so compiling it cannot fail.
#[verifier::external_body]
fn url_regex_match(s: &str) -> (r: bool)
    ensures
        r == url_pattern_matches(s@),
{
    regex::Regex::new(
        r"^(https?://)?([a-zA-Z0-9]([a-zA-Z0-9-]*[a-zA-Z0-9])?\.)+[a-zA-Z]{2,}(/[a-zA-Z0-9-._~:/?#\[\]@!$&'()*+,;=]*)?$",
    ).unwrap().is_match(s)
}

/// The scheme prefix of an inline image data URL.
pub open spec fn data_image_prefix() -> Seq<char> {
    seq!['d', 'a', 't', 'a', ':', 'i', 'm', 'a', 'g', 'e', '/']
}

/// A URL is accepted when it is an inline image data URL or when the
/// fixed URL pattern matches it.
pub open spec fn spec_valid_url(s: Seq<char>) -> bool {
    is_prefix_of(data_image_prefix(), s) || url_pattern_matches(s)
}

pub fn validate_url(url: &str) -> (r: bool)
    ensures
        r == spec_valid_url(url@),
{
    proof {
        reveal_strlit("data:image/");
        assert("data:image/"@ =~= data_image_prefix());
    }
    if str_starts_with(url, "data:image/") {
        return true;
    }
    url_regex_match(url)
}

/// How one character is escaped for embedding in HTML text.
pub open spec fn escape_char(c: char) -> Seq<char> {
    if c == '&' {
        seq!['&', 'a', 'm', 'p', ';']
    } else if c == '<' {
        seq!['&', 'l', 't', ';']
    } else if c == '>' {
        seq!['&', 'g', 't', ';']
    } else {
        seq![c]
    }
}

/// The HTML-escaped form of a string: `&`, `<` and `>` become entities,
/// every other character stays.
pub open spec fn html_escaped(s: Seq<char>) -> Seq<char>
    decreases s.len(),
{
    if s.len() == 0 {
        s
    } else {
        escape_char(s[0]) + html_escaped(s.drop_first())
    }
}

/// Relies on html-escape: `encode_text` replaces `&`, `<` and `>` by
/// their entities and passes every other character through.
#[verifier::external_body]
fn escape_html_text(input: &str) -> (r: String)
    ensures
        r@ == html_escaped(input@),
{
    html_escape::encode_text(input).to_string()
}

/// Escapes user text for embedding in HTML, guarding against script
/// injection.
pub fn sanitize_input(input: &str) -> (r: String)
    ensures
        r@ == html_escaped(input@),
{
    escape_html_text(input)
}

/// True for the image media types accepted for an upload.
pub fn validate_file_type(file_type: &str) -> (r: bool)
    ensures
        r == (file_type@ == "image/jpeg"@ || file_type@ == "image/png"@ || file_type@
            == "image/svg+xml"@ || file_type@ == "image/gif"@),
{
    str_eq(file_type, "image/jpeg") || str_eq(file_type, "image/png") || str_eq(
        file_type,
        "image/svg+xml",
    ) || str_eq(file_type, "image/gif")
}

/// True when a size in bytes does not exceed the given limit.
pub fn validate_file_size(size: usize, max_size: usize) -> (r: bool)
    ensures
        r == (size <= max_size),
{
    size <= max_size
}

/// True when a title's UTF-8 byte length does not exceed the given limit.
pub fn validate_title_length(title: &str, max_length: usize) -> (r: bool)
    ensures
        r == (vstd::utf8::encode_utf8(title@).len() <= max_length),
{
    title.as_bytes().len() <= max_length
}

} // verus!
