//! URL handling for the remote client.
//!
//! The url crate decides which strings are well-formed URLs and how query
//! pairs are percent-encoded and appended; both results are named here and
//! everything built on them is verified. Inputs are bounded in length
//! because the url crate aborts once a URL's serialization passes 4 GiB:
//! percent-encoding inflates a character to at most twelve bytes, so a
//! base under 2^24 characters with at most sixteen pairs of strings under
//! 2^20 characters each serializes to well under 1 GiB.

use vstd::prelude::*;

verus! {

/// A parse-only input this long or longer is never handed to the url
/// crate.
pub open spec fn url_len_ok(s: Seq<char>) -> bool {
    s.len() < 0x1000_0000
}

/// A base URL this long or longer is never handed to the pair-appending
/// call.
pub open spec fn base_len_ok(s: Seq<char>) -> bool {
    s.len() < 0x100_0000
}

/// A query-pair string this long or longer is never handed to the
/// pair-appending call.
pub open spec fn pair_len_ok(s: Seq<char>) -> bool {
    s.len() < 0x10_0000
}

/// Whether the url crate parses this string as a valid URL. The result
/// depends on the characters alone.
pub uninterp spec fn url_ok(s: Seq<char>) -> bool;

/// The URL obtained by parsing `base` and appending `params` to its query,
/// each pair percent-encoded; `None` when `base` does not parse. The result
/// depends on the characters alone.
pub uninterp spec fn url_with_params(base: Seq<char>, params: Seq<(Seq<char>, Seq<char>)>) -> Option<
    Seq<char>,
>;

/// Relies on url's Url::parse: whether the string is a valid URL. Parsing
/// alone reports an oversized serialization as an error, so only the
/// coarse bound is needed.
#[verifier::external_body]
pub(crate) fn url_is_valid(s: &str) -> (r: bool)
    requires
        url_len_ok(s@),
    ensures
        r == url_ok(s@),
{
    url::Url::parse(s).is_ok()
}

/// Relies on url's Url::parse_with_params: parses `base` and appends each
/// pair of `params` to its query. Appending re-serializes the URL without
/// its own length check, so the bounds here keep the serialization far
/// under the crate's 4 GiB abort.
#[verifier::external_body]
pub(crate) fn parse_with_params(base: &str, params: &Vec<(String, String)>) -> (r: Option<String>)
    requires
        base_len_ok(base@),
        params@.len() <= 16,
        forall|i: int|
            0 <= i < params@.len() ==> pair_len_ok(#[trigger] params@[i].0@) && pair_len_ok(
                params@[i].1@,
            ),
    ensures
        r is Some <==> url_with_params(base@, params.deep_view()) is Some,
        r matches Some(s) ==> url_with_params(base@, params.deep_view()) == Some(s@),
{
    let pairs = params.iter().map(|p| (p.0.as_str(), p.1.as_str()));
    url::Url::parse_with_params(base, pairs).ok().map(String::from)
}

} // verus!
