use vstd::prelude::*;
use vstd::utf8::{valid_utf8, decode_utf8};

verus! {

/// Relies on `String::from_utf8`: it accepts exactly the valid UTF-8
/// sequences and yields the characters they encode.
#[verifier::external_body]
pub(crate) fn text_from_utf8(bytes: Vec<u8>) -> (r: Option<String>)
    ensures
        r is Some <==> valid_utf8(bytes@),
        r matches Some(s) ==> s@ == decode_utf8(bytes@),
{
    String::from_utf8(bytes).ok()
}

/// A parsed URL, as `reqwest` re-exports it from the `url` crate; opaque here.
#[verifier::external_type_specification]
#[verifier::external_body]
pub struct ExUrl(reqwest::Url);

/// Whether `url::Url::parse` accepts a text.
pub uninterp spec fn url_parses(s: Seq<char>) -> bool;

/// Relies on `reqwest::Url::parse` (the `url` crate's parser): whether it
/// succeeds depends on the text alone.
#[verifier::external_body]
pub(crate) fn parse_url(s: &str) -> (r: Option<reqwest::Url>)
    ensures
        r is Some <==> url_parses(s@),
{
    reqwest::Url::parse(s).ok()
}

} // verus!
