//! A verified core for a single-site web crawler.
//!
//! The crate canonicalizes URLs into dedup keys, extracts and resolves the
//! links of an HTML page, keeps a ledger of visit counts, and drives a
//! depth-bounded traversal over a LIFO work list.  Network transport and
//! report rendering stay outside; the crawl decisions are verified here.

pub mod crawl;
pub mod ledger;
pub mod links;
pub mod report;
pub mod text;
pub mod urls;
