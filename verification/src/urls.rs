//! URL parsing and reference resolution, through the `url` crate.
//!
//! The parsed pieces that the crawl logic reads (host and path) come back as
//! plain values; what the `url` crate computes is named by uninterpreted
//! spec functions and assumed only in the wrappers below.

use vstd::prelude::*;

verus! {

/// The pieces of a parsed absolute URL that the crawler reads.
pub struct UrlParts {
    /// The URL's host, if it has one (`mailto:` or `data:` URLs have none).
    pub host: Option<String>,
    /// The URL's serialized path (percent-encoded, query and fragment excluded).
    pub path: String,
}

/// Spec-level image of [`UrlParts`].
pub ghost struct UrlPartsView {
    pub host: Option<Seq<char>>,
    pub path: Seq<char>,
}

impl View for UrlParts {
    type V = UrlPartsView;

    open spec fn view(&self) -> UrlPartsView {
        UrlPartsView {
            host: match self.host {
                Some(h) => Some(h@),
                None => None,
            },
            path: self.path@,
        }
    }
}

/// What `url::Url::parse` makes of a string: `None` where it rejects the
/// input, else the parsed URL's host and path.
pub uninterp spec fn url_parts_of(s: Seq<char>) -> Option<UrlPartsView>;

/// What `url::Url::parse` followed by re-serialization makes of an absolute
/// URL string (the serialization is normalized; a missing path becomes `/`).
pub uninterp spec fn reserialized_url(s: Seq<char>) -> Option<Seq<char>>;

/// What RFC 3986 reference resolution of `link` against `base` yields under
/// the `url` crate: `None` where the base does not parse or the join fails.
pub uninterp spec fn joined_url(base: Seq<char>, link: Seq<char>) -> Option<Seq<char>>;

/// Relies on `url::Url::parse`: success, the parsed host and the parsed path
/// are a function of the input string alone; `host_str` and `path` read them.
#[verifier::external_body]
pub(crate) fn parse_url_parts(s: &str) -> (r: Option<UrlParts>)
    ensures
        match r {
            Some(p) => url_parts_of(s@) == Some(p@),
            None => url_parts_of(s@) is None,
        },
{
    match url::Url::parse(s) {
        Ok(u) => Some(UrlParts { host: u.host_str().map(str::to_owned), path: u.path().to_owned() }),
        Err(_) => None,
    }
}

/// Relies on `url::Url::parse` and `Url::as_str`: the normalized
/// serialization of a parsed URL is a function of the input string alone.
#[verifier::external_body]
pub(crate) fn reserialize_url(s: &str) -> (r: Option<String>)
    ensures
        match r {
            Some(u) => reserialized_url(s@) == Some(u@),
            None => reserialized_url(s@) is None,
        },
{
    match url::Url::parse(s) {
        Ok(u) => Some(u.as_str().to_owned()),
        Err(_) => None,
    }
}

/// Relies on `url::Url::parse` and `Url::join`: resolving a reference
/// against a base URL is a function of the two strings alone.
#[verifier::external_body]
pub(crate) fn join_url(base: &str, link: &str) -> (r: Option<String>)
    ensures
        match r {
            Some(u) => joined_url(base@, link@) == Some(u@),
            None => joined_url(base@, link@) is None,
        },
{
    match url::Url::parse(base) {
        Ok(b) => match b.join(link) {
            Ok(u) => Some(u.as_str().to_owned()),
            Err(_) => None,
        },
        Err(_) => None,
    }
}

} // verus!
