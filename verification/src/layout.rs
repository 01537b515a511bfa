//! The layout configuration: the console's logo and title, with the
//! validation rules a saved configuration must satisfy.

use vstd::prelude::*;
use crate::validation::{spec_valid_url, validate_url};

verus! {

/// Longest accepted title, in UTF-8 bytes.
pub const MAX_TITLE_LENGTH: usize = 100;

#[derive(Debug, Clone, PartialEq, Eq)]
pub struct LayoutConfig {
    pub logo_url: String,
    pub title: String,
}

impl Default for LayoutConfig {
    /// The built-in logo and title.
    fn default() -> (r: Self)
        ensures
            r.logo_url@ == "/logo.svg"@,
            r.title@ == "Stalwart Management"@,
    {
        LayoutConfig {
            logo_url: String::from_str("/logo.svg"),
            title: String::from_str("Stalwart Management"),
        }
    }
}

/// A configuration is acceptable when the title is present but not over
/// long (measured in UTF-8 bytes), and the logo URL, if any, has a valid
/// shape.
pub open spec fn spec_layout_valid(c: LayoutConfig) -> bool {
    c.title@.len() > 0 && vstd::utf8::encode_utf8(c.title@).len() <= MAX_TITLE_LENGTH && (
    c.logo_url@.len() == 0 || spec_valid_url(c.logo_url@))
}

impl LayoutConfig {
    /// Checks the configuration, naming the first rule broken.
    pub fn validate(&self) -> (r: Result<(), String>)
        ensures
            (r is Ok) == spec_layout_valid(*self),
            r matches Err(e) ==> e@ == (if self.title@.len() == 0 {
                "Title cannot be empty"@
            } else if vstd::utf8::encode_utf8(self.title@).len() > MAX_TITLE_LENGTH {
                "Title must be less than 100 characters"@
            } else {
                "Invalid logo URL"@
            }),
    {
        if self.title.as_str().is_empty() {
            return Err(String::from_str("Title cannot be empty"));
        }
        if self.title.as_str().as_bytes().len() > MAX_TITLE_LENGTH {
            return Err(String::from_str("Title must be less than 100 characters"));
        }
        if self.logo_url.as_str().unicode_len() > 0 && !validate_url(self.logo_url.as_str()) {
            return Err(String::from_str("Invalid logo URL"));
        }
        Ok(())
    }
}

} // verus!
