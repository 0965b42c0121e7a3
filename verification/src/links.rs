//! Anchor extraction from HTML, through the `select` crate, and the
//! spec-level account of link resolution.

use crate::urls::{joined_url, reserialized_url};
use vstd::prelude::*;

verus! {

/// What the `select` crate's HTML parser yields for a document: the `href`
/// attribute of each anchor element, in document order.
pub uninterp spec fn hrefs_of(html: Seq<char>) -> Seq<Seq<char>>;

/// Relies on select's `Document::from`, `Document::find` with the `Name`
/// predicate, and `Node::attr`: parsing is best-effort and deterministic,
/// and `find` walks the document's nodes in document order.
#[verifier::external_body]
pub(crate) fn anchor_hrefs(html: &str) -> (r: Vec<String>)
    ensures
        r.deep_view() == hrefs_of(html@),
{
    select::document::Document::from(html)
        .find(select::predicate::Name("a"))
        .filter_map(|n| n.attr("href").map(str::to_owned))
        .collect()
}

/// How one href resolves: an absolute URL passes through (re-serialized),
/// anything else is joined onto the base; `None` drops the href.
pub open spec fn resolve_link(base: Seq<char>, href: Seq<char>) -> Option<Seq<char>> {
    match reserialized_url(href) {
        Some(u) => Some(u),
        None => joined_url(base, href),
    }
}

/// The hrefs that resolve, resolved, in order.
pub open spec fn resolve_links(base: Seq<char>, hrefs: Seq<Seq<char>>) -> Seq<Seq<char>>
    decreases hrefs.len(),
{
    if hrefs.len() == 0 {
        Seq::empty()
    } else {
        let init = resolve_links(base, hrefs.drop_last());
        match resolve_link(base, hrefs.last()) {
            Some(u) => init.push(u),
            None => init,
        }
    }
}

/// The absolute URLs that a page's anchors yield against a base URL.
pub open spec fn links_spec(html: Seq<char>, base: Seq<char>) -> Seq<Seq<char>> {
    resolve_links(base, hrefs_of(html))
}

} // verus!
