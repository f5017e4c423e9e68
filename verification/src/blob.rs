//! What a catalog file read from a commit yields: its text where it is
//! UTF-8 text, and else the reason it is skipped.

use vstd::prelude::*;

verus! {

/// Name of the text that `String::from_utf8` decodes from `bytes`
/// (`None` where they are not valid UTF-8).
pub uninterp spec fn utf8_decode(bytes: Seq<u8>) -> Option<Seq<char>>;

/// `String::from_utf8`: the text that `bytes` encode, if they are UTF-8.
#[verifier::external_body]
fn string_from_utf8(bytes: Vec<u8>) -> (r: Option<String>)
    ensures
        match r {
            Some(s) => utf8_decode(bytes@) == Some(s@),
            None => utf8_decode(bytes@) is None,
        },
{
    String::from_utf8(bytes).ok()
}

/// What a file's content yields.
#[derive(Debug)]
pub enum CatalogText {
    /// The content as text.
    Text(String),
    /// The content is flagged binary and is not UTF-8; it is skipped.
    Binary,
    /// The content is not valid UTF-8; it is skipped.
    NotUtf8,
}

/// Classify a file's content: where it decodes as UTF-8 it is text,
/// whatever the binary flag says; otherwise it is skipped, as binary where
/// it is flagged so.
pub fn catalog_text(is_binary: bool, content: Vec<u8>) -> (r: CatalogText)
    ensures
        match utf8_decode(content@) {
            Some(t) => r matches CatalogText::Text(s) && s@ == t,
            None => if is_binary {
                r is Binary
            } else {
                r is NotUtf8
            },
        },
{
    match string_from_utf8(content) {
        Some(s) => CatalogText::Text(s),
        None => if is_binary {
            CatalogText::Binary
        } else {
            CatalogText::NotUtf8
        },
    }
}

} // verus!
