//! The operations on URLs that the library takes from the `url` crate.
//! URLs are held as their serialization (`Url::as_str`).
use vstd::prelude::*;

verus! {

/// The serialization of the URL that `input` names relative to the URL
/// serialized as `base` (`url::Url::join`), or `None` where the url crate
/// refuses `base` or the join.
pub uninterp spec fn spec_url_join(base: Seq<char>, input: Seq<char>) -> Option<Seq<char>>;

/// The host of the URL serialized as `url` (`url::Url::host_str`); the
/// outer `None` where the url crate refuses `url`.
pub uninterp spec fn spec_url_host(url: Seq<char>) -> Option<Option<Seq<char>>>;

/// The path of the URL serialized as `url` (`url::Url::path`), or `None`
/// where the url crate refuses `url`.
pub uninterp spec fn spec_url_path(url: Seq<char>) -> Option<Seq<char>>;

/// `url::Url::parse(base)` then `Url::join(input)`, serialized. The result
/// is named, not described: what `join` computes is the URL standard's
/// relative resolution. `base` is always the serialization of a parsed URL
/// here, which the url crate parses back to the same URL.
#[verifier::external_body]
pub fn url_join(base: &str, input: &str) -> (r: Option<String>)
    ensures
        r matches Some(s) ==> spec_url_join(base@, input@) == Some(s@),
        r is None ==> spec_url_join(base@, input@) is None,
{
    match url::Url::parse(base) {
        Ok(b) => match b.join(input) {
            Ok(u) => Some(String::from(u)),
            Err(_) => None,
        },
        Err(_) => None,
    }
}

/// `url::Url::host_str` of the URL serialized as `url`; the result is named.
#[verifier::external_body]
pub fn url_host(url: &str) -> (r: Option<Option<String>>)
    ensures
        r matches Some(Some(h)) ==> spec_url_host(url@) == Some(Some(h@)),
        r matches Some(None) ==> spec_url_host(url@) == Some(None::<Seq<char>>),
        r is None ==> spec_url_host(url@) is None,
{
    match url::Url::parse(url) {
        Ok(u) => Some(u.host_str().map(|h| h.to_string())),
        Err(_) => None,
    }
}

/// `url::Url::path` of the URL serialized as `url`; the result is named.
#[verifier::external_body]
pub fn url_path(url: &str) -> (r: Option<String>)
    ensures
        r matches Some(p) ==> spec_url_path(url@) == Some(p@),
        r is None ==> spec_url_path(url@) is None,
{
    match url::Url::parse(url) {
        Ok(u) => Some(u.path().to_string()),
        Err(_) => None,
    }
}

} // verus!
