//! The traversal engine: URL normalization, link extraction against the
//! crawl's base, and the depth-bounded, deduplicating work-list traversal.
//!
//! Fetching is not done here: the engine hands out the next URL to fetch
//! and takes back the body of an HTML response.  Every crawl decision —
//! depth bound, host filter, normalization, dedup — is verified.

use crate::ledger::{cnt_inc, Ledger};
use crate::links::{anchor_hrefs, links_spec, resolve_links};
use crate::text::{
    contains_substring, has_substring, lower_seq, lower_str, strip_slashes,
    strip_trailing_slashes,
};
use crate::urls::{join_url, parse_url_parts, reserialize_url, url_parts_of};
use vstd::prelude::*;
use vstd::string::*;

verus! {

/// The dedup key of a page: lowercased host, then the lowercased path with
/// trailing slashes removed.  Scheme, userinfo, port, query and fragment
/// are dropped by design.
pub open spec fn normal_key(host: Seq<char>, path: Seq<char>) -> Seq<char> {
    lower_seq(host) + strip_slashes(lower_seq(path))
}

/// What normalization makes of a URL string: `None` where the string does
/// not parse as an absolute URL or has no host, else the dedup key.
pub open spec fn normalize_spec(s: Seq<char>) -> Option<Seq<char>> {
    match url_parts_of(s) {
        Some(p) => match p.host {
            Some(h) => Some(normal_key(h, p.path)),
            None => None,
        },
        None => None,
    }
}

/// The spec-level image of an optional host string.
pub open spec fn host_opt_view(h: Option<String>) -> Option<Seq<char>> {
    match h {
        Some(s) => Some(s@),
        None => None,
    }
}

/// The key under which a popped URL is admitted to the ledger: `None`
/// where the URL does not parse, its host is not the crawl's host, or it
/// has no host at all (in which case normalization fails).
pub open spec fn admitted_key(u: Seq<char>, base_host: Option<Seq<char>>) -> Option<Seq<char>> {
    match url_parts_of(u) {
        Some(p) => if p.host == base_host {
            match p.host {
                Some(h) => Some(normal_key(h, p.path)),
                None => None,
            }
        } else {
            None
        },
        None => None,
    }
}

/// A fatal error at crawl start; everything later is recoverable and only
/// prunes a branch.
#[derive(Debug)]
pub enum CrawlError {
    /// The crawl's base URL does not parse as an absolute URL.
    InvalidBaseUrl,
    /// The seed page could not be fetched.
    SeedFetchFailed,
    /// The seed page answered with an HTTP error status.
    SeedHttpError,
}

/// What a response's `content-type` header says about its body.
pub enum ResponseClass {
    /// The response declares an HTML body.
    Html,
    /// The response declares some other content type.
    NonHtml,
    /// The response carries no `content-type` header at all.
    MissingContentType,
}

/// Classifies a response before any parsing is attempted: HTML exactly
/// where a `content-type` header is present and mentions `text/html`.
pub fn classify_response(content_type: Option<&str>) -> (r: ResponseClass)
    ensures
        match content_type {
            Some(ct) => if has_substring(ct@, "text/html"@) {
                r is Html
            } else {
                r is NonHtml
            },
            None => r is MissingContentType,
        },
{
    match content_type {
        Some(ct) => if contains_substring(ct, "text/html") {
            ResponseClass::Html
        } else {
            ResponseClass::NonHtml
        },
        None => ResponseClass::MissingContentType,
    }
}

/// An HTTP status in the client-error or server-error range; such a
/// response discards its branch, and is fatal on the seed page.
pub fn is_error_status(status: u16) -> (r: bool)
    ensures
        r == (400 <= status && status < 600),
{
    400 <= status && status < 600
}

/// One step of the work-list traversal, run to the next fetch: pop a work
/// item; drop it if it is too deep, unparsable, offsite or hostless; bump
/// its count if its key is already on the ledger; else record the key with
/// count 1 and yield the item for fetching.  `None` when the list empties.
pub open spec fn drain(
    work: Seq<(String, usize)>,
    led: Map<Seq<char>, nat>,
    max_depth: usize,
    base_host: Option<Seq<char>>,
) -> (Seq<(String, usize)>, Map<Seq<char>, nat>, Option<(String, usize)>)
    decreases work.len(),
{
    if work.len() == 0 {
        (work, led, None)
    } else {
        let item = work.last();
        let rest = work.drop_last();
        if item.1 > max_depth {
            drain(rest, led, max_depth, base_host)
        } else {
            match admitted_key(item.0@, base_host) {
                None => drain(rest, led, max_depth, base_host),
                Some(key) => if led.dom().contains(key) {
                    drain(rest, led.insert(key, cnt_inc(led[key])), max_depth, base_host)
                } else {
                    (rest, led.insert(key, 1), Some(item))
                },
            }
        }
    }
}

fn make_key(host: &str, path: &str) -> (r: String)
    ensures
        r@ == normal_key(host@, path@),
{
    let mut k = lower_str(host);
    let pl = lower_str(path);
    let stripped = strip_trailing_slashes(pl.as_str());
    k.append(stripped.as_str());
    k
}

fn host_matches(a: &Option<String>, b: &Option<String>) -> (r: bool)
    ensures
        r == (host_opt_view(*a) == host_opt_view(*b)),
{
    match a {
        Option::None => match b {
            Option::None => true,
            Option::Some(_) => false,
        },
        Option::Some(x) => match b {
            Option::None => false,
            Option::Some(y) => *x == *y,
        },
    }
}

/// The crawler: the base URL giving the host scope, the visited-page
/// ledger, and the work list of URLs still to process with their depths.
pub struct Crawler {
    /// The seed's URL as given; link resolution and the host scope both
    /// derive from it.
    pub base_url: String,
    /// The visit counts, keyed by normalized URL.
    pub visited_pages: Ledger,
    /// The LIFO work list of raw URLs with their depths.
    pub work: Vec<(String, usize)>,
    /// The depth bound; deeper work items are discarded.
    pub max_depth: usize,
    /// The base URL's host, set when the crawl starts.
    pub base_host: Option<String>,
}

impl Crawler {
    /// The ledger's keys stay pairwise distinct.
    pub open spec fn inv(self) -> bool {
        self.visited_pages.wf()
    }

    /// A crawler scoped to `base_url`, with an empty ledger and an empty
    /// work list.
    pub fn new(base_url: &str) -> (r: Self)
        ensures
            r.inv(),
            r.base_url@ == base_url@,
            r.visited_pages@ == Map::<Seq<char>, nat>::empty(),
            r.work@ == Seq::<(String, usize)>::empty(),
            r.max_depth == 0,
            r.base_host is None,
    {
        Crawler {
            base_url: base_url.to_owned(),
            visited_pages: Ledger::new(),
            work: Vec::new(),
            max_depth: 0,
            base_host: None,
        }
    }

    /// The dedup key of `url`: lowercased host and lowercased,
    /// slash-stripped path.  `None` exactly where `url` does not parse as
    /// an absolute URL or parses without a host.
    pub fn normalize_url(&self, url: &str) -> (r: Option<String>)
        ensures
            match r {
                Some(k) => normalize_spec(url@) == Some(k@),
                None => normalize_spec(url@) is None,
            },
    {
        match parse_url_parts(url) {
            None => None,
            Some(p) => match p.host {
                None => None,
                Some(h) => Some(make_key(h.as_str(), p.path.as_str())),
            },
        }
    }

    /// The absolute URLs of the page's anchors: an href that is itself an
    /// absolute URL passes through re-serialized, any other resolves
    /// against `base_url`, and an href that resolves neither way is
    /// dropped.  Document order, duplicates kept.
    pub fn get_urls_from_html(&self, html: &str, base_url: &str) -> (r: Vec<String>)
        ensures
            r.deep_view() == links_spec(html@, base_url@),
    {
        let hrefs = anchor_hrefs(html);
        let ghost hs = hrefs.deep_view();
        let mut urls: Vec<String> = Vec::new();
        let n = hrefs.len();
        let mut i: usize = 0;
        while i < n
            invariant
                hrefs.deep_view() == hs,
                n == hs.len(),
                n == hrefs@.len(),
                i <= n,
                urls.deep_view() == resolve_links(base_url@, hs.take(i as int)),
            decreases n - i,
        {
            let href = &hrefs[i];
            let ghost urls0 = urls.deep_view();
            let mut added: bool = false;
            match reserialize_url(href.as_str()) {
                Some(u) => {
                    urls.push(u);
                    added = true;
                }
                None => match join_url(base_url, href.as_str()) {
                    Some(u) => {
                        urls.push(u);
                        added = true;
                    }
                    None => {}
                },
            }
            i = i + 1;
            proof {
                assert(hrefs@[i - 1].deep_view() == hs[i - 1]);
                assert(hs.take(i as int).drop_last() =~= hs.take(i - 1));
                assert(hs.take(i as int).last() == hs[i - 1]);
                if added {
                    assert(urls.deep_view() =~= urls0.push(urls@.last().deep_view()));
                } else {
                    assert(urls.deep_view() =~= urls0);
                }
            }
        }
        proof {
            assert(hs.take(n as int) =~= hs);
        }
        urls
    }

    /// Begin a crawl: parse the base URL to fix the host scope, set the
    /// depth bound, and seed the work list with `(start_url, 0)`.  Fails
    /// exactly where the base URL does not parse; the ledger and the base
    /// URL itself are untouched either way.
    pub fn start_crawl(&mut self, start_url: &str, max_depth: usize) -> (r: Result<
        (),
        CrawlError,
    >)
        requires
            old(self).inv(),
        ensures
            final(self).inv(),
            final(self).base_url == old(self).base_url,
            final(self).visited_pages == old(self).visited_pages,
            match r {
                Ok(_) => ({
                    &&& url_parts_of(old(self).base_url@) matches Some(p) && host_opt_view(
                        final(self).base_host,
                    ) == p.host
                    &&& final(self).max_depth == max_depth
                    &&& final(self).work@.len() == 1
                    &&& final(self).work@[0].0@ == start_url@
                    &&& final(self).work@[0].1 == 0
                }),
                Err(e) => ({
                    &&& e is InvalidBaseUrl
                    &&& url_parts_of(old(self).base_url@) is None
                    &&& *final(self) == *old(self)
                }),
            },
    {
        match parse_url_parts(self.base_url.as_str()) {
            None => Err(CrawlError::InvalidBaseUrl),
            Some(p) => {
                self.base_host = p.host;
                self.max_depth = max_depth;
                let mut w: Vec<(String, usize)> = Vec::new();
                w.push((start_url.to_owned(), 0));
                self.work = w;
                Ok(())
            }
        }
    }

    /// Pop work items until one is admitted or the list empties.  The
    /// items, the ledger and the result are exactly what [`drain`] says:
    /// too-deep, unparsable, offsite and hostless items are discarded,
    /// already-recorded keys are bumped, and the first fresh key is
    /// recorded with count 1 and its raw URL returned for fetching.
    pub fn next_url(&mut self) -> (r: Option<(String, usize)>)
        requires
            old(self).inv(),
        ensures
            final(self).inv(),
            final(self).base_url == old(self).base_url,
            final(self).base_host == old(self).base_host,
            final(self).max_depth == old(self).max_depth,
            (final(self).work@, final(self).visited_pages@, r) == drain(
                old(self).work@,
                old(self).visited_pages@,
                old(self).max_depth,
                host_opt_view(old(self).base_host),
            ),
            r matches Some(item) ==> item.1 <= old(self).max_depth,
    {
        let ghost w0 = self.work@;
        let ghost led0 = self.visited_pages@;
        let ghost md = self.max_depth;
        let ghost bh = host_opt_view(self.base_host);
        while self.work.len() != 0
            invariant
                self.inv(),
                self.base_url == old(self).base_url,
                self.base_host == old(self).base_host,
                self.max_depth == old(self).max_depth,
                md == old(self).max_depth,
                bh == host_opt_view(old(self).base_host),
                w0 == old(self).work@,
                led0 == old(self).visited_pages@,
                drain(self.work@, self.visited_pages@, md, bh) == drain(w0, led0, md, bh),
            decreases self.work@.len(),
        {
            let ghost w_iter = self.work@;
            let ghost led_iter = self.visited_pages@;
            let item = self.work.pop().unwrap();
            proof {
                assert(w_iter.drop_last() =~= self.work@);
                assert(item == w_iter.last());
            }
            let (u, d) = item;
            if d <= self.max_depth {
                match parse_url_parts(u.as_str()) {
                    None => {}
                    Some(p) => {
                        if host_matches(&p.host, &self.base_host) {
                            match p.host {
                                None => {}
                                Some(h) => {
                                    let key = make_key(h.as_str(), p.path.as_str());
                                    proof {
                                        assert(admitted_key(u@, bh) == Some(key@));
                                    }
                                    if self.visited_pages.contains_key(&key) {
                                        self.visited_pages.increment(&key);
                                    } else {
                                        self.visited_pages.insert_new(key);
                                        proof {
                                            assert(drain(w_iter, led_iter, md, bh) == (
                                                self.work@,
                                                self.visited_pages@,
                                                Some((u, d)),
                                            ));
                                        }
                                        return Some((u, d));
                                    }
                                }
                            }
                        }
                    }
                }
            }
        }
        proof {
            assert(drain(self.work@, self.visited_pages@, md, bh) == (
                self.work@,
                self.visited_pages@,
                None::<(String, usize)>,
            ));
        }
        None
    }

    /// Take in the body of a successfully fetched HTML page at `depth`:
    /// extract its links against the crawl's base URL and enqueue, at
    /// `depth + 1`, every candidate whose raw URL is not already a ledger
    /// key, in document order.  The ledger itself is untouched.
    pub fn on_html(&mut self, body: &str, depth: usize)
        requires
            old(self).inv(),
            depth < usize::MAX,
        ensures
            final(self).inv(),
            final(self).base_url == old(self).base_url,
            final(self).base_host == old(self).base_host,
            final(self).max_depth == old(self).max_depth,
            final(self).visited_pages == old(self).visited_pages,
            ({
                let fresh = links_spec(body@, old(self).base_url@).filter(
                    |l: Seq<char>| !old(self).visited_pages@.dom().contains(l),
                );
                &&& final(self).work@.len() == old(self).work@.len() + fresh.len()
                &&& (forall|j: int|
                    0 <= j < old(self).work@.len() ==> final(self).work@[j] == old(self).work@[j])
                &&& (forall|j: int|
                    0 <= j < fresh.len() ==> (#[trigger] final(self).work@[old(self).work@.len()
                        + j]).0@ == fresh[j] && final(self).work@[old(self).work@.len() + j].1
                        == depth + 1)
            }),
    {
        let links = self.get_urls_from_html(body, self.base_url.as_str());
        let ghost ls = links.deep_view();
        let ghost pred = |l: Seq<char>| !old(self).visited_pages@.dom().contains(l);
        let ghost w0 = self.work@;
        let n = links.len();
        let d1 = depth + 1;
        let mut i: usize = 0;
        while i < n
            invariant
                self.inv(),
                self.base_url == old(self).base_url,
                self.base_host == old(self).base_host,
                self.max_depth == old(self).max_depth,
                self.visited_pages == old(self).visited_pages,
                w0 == old(self).work@,
                links.deep_view() == ls,
                n == ls.len(),
                n == links@.len(),
                i <= n,
                d1 == depth + 1,
                pred == (|l: Seq<char>| !old(self).visited_pages@.dom().contains(l)),
                self.work@.len() == w0.len() + ls.take(i as int).filter(pred).len(),
                forall|j: int| 0 <= j < w0.len() ==> self.work@[j] == w0[j],
                forall|j: int|
                    0 <= j < ls.take(i as int).filter(pred).len() ==> (#[trigger] self.work@[w0.len()
                        + j]).0@ == ls.take(i as int).filter(pred)[j] && self.work@[w0.len()
                        + j].1 == d1,
            decreases n - i,
        {
            let ghost taken = ls.take(i as int).filter(pred);
            let link = links[i].clone();
            if !self.visited_pages.contains_key(&link) {
                self.work.push((link, d1));
            }
            i = i + 1;
            proof {
                reveal(Seq::filter);
                assert(links@[i - 1].deep_view() == ls[i - 1]);
                assert(ls.take(i as int).drop_last() =~= ls.take(i - 1));
                assert(ls.take(i as int).last() == ls[i - 1]);
                if pred(ls[i - 1]) {
                    assert(ls.take(i as int).filter(pred) =~= taken.push(ls[i - 1]));
                } else {
                    assert(ls.take(i as int).filter(pred) =~= taken);
                }
            }
        }
        proof {
            assert(ls.take(n as int) =~= ls);
        }
    }

    /// The visited-page ledger, for reporting.
    pub fn pages(&self) -> (r: &Ledger)
        ensures
            *r == self.visited_pages,
    {
        &self.visited_pages
    }
}

/// Two absolute URLs whose hosts agree up to ASCII case and whose paths
/// agree up to ASCII case and trailing slashes normalize to the identical
/// key; the scheme, userinfo, port, query and fragment of either play no
/// part.
pub proof fn lemma_normalize_case_slash_insensitive(a: Seq<char>, b: Seq<char>)
    requires
        url_parts_of(a) matches Some(pa) && pa.host matches Some(ha) && url_parts_of(
            b,
        ) matches Some(pb) && pb.host matches Some(hb) && lower_seq(ha) == lower_seq(hb)
            && strip_slashes(lower_seq(pa.path)) == strip_slashes(lower_seq(pb.path)),
    ensures
        normalize_spec(a) is Some,
        normalize_spec(a) == normalize_spec(b),
{
}

/// Normalization is a fixed point: rebuilding the key from an
/// already-canonical host and path — lowercased host, lowercased and
/// slash-stripped path — changes nothing.
pub proof fn lemma_normal_key_idempotent(host: Seq<char>, path: Seq<char>)
    ensures
        normal_key(lower_seq(host), strip_slashes(lower_seq(path))) == normal_key(host, path),
{
    crate::text::lemma_lower_seq_idempotent(host);
    crate::text::lemma_lower_strip_commute(lower_seq(path));
    crate::text::lemma_lower_seq_idempotent(path);
    crate::text::lemma_strip_idempotent(lower_seq(path));
}

/// Work items deeper than the depth bound are all discarded: draining a
/// work list of only such items consumes the whole list, touches no
/// count, and fetches nothing.  With depth bound 0 this covers every item
/// a seed page enqueues.
pub proof fn lemma_deep_items_discarded(
    work: Seq<(String, usize)>,
    led: Map<Seq<char>, nat>,
    max_depth: usize,
    base_host: Option<Seq<char>>,
)
    requires
        forall|i: int| 0 <= i < work.len() ==> (#[trigger] work[i]).1 > max_depth,
    ensures
        drain(work, led, max_depth, base_host) == (
            Seq::<(String, usize)>::empty(),
            led,
            None::<(String, usize)>,
        ),
    decreases work.len(),
{
    if work.len() == 0 {
        assert(work =~= Seq::<(String, usize)>::empty());
    } else {
        lemma_deep_items_discarded(work.drop_last(), led, max_depth, base_host);
    }
}

/// At most one fetch per normalized URL: whatever the traversal hands out
/// for fetching had no key on the ledger when the drain began, and leaves
/// with its key freshly recorded at count 1.
pub proof fn lemma_fetched_item_is_new(
    work: Seq<(String, usize)>,
    led: Map<Seq<char>, nat>,
    max_depth: usize,
    base_host: Option<Seq<char>>,
)
    ensures
        ({
            let (w2, led2, r) = drain(work, led, max_depth, base_host);
            r matches Some(item) ==> ({
                &&& item.1 <= max_depth
                &&& admitted_key(item.0@, base_host) matches Some(key) && !led.dom().contains(key)
                    && led2.contains_pair(key, 1)
            })
        }),
    decreases work.len(),
{
    if work.len() > 0 {
        let item = work.last();
        let rest = work.drop_last();
        if item.1 > max_depth {
            lemma_fetched_item_is_new(rest, led, max_depth, base_host);
        } else {
            match admitted_key(item.0@, base_host) {
                None => {
                    lemma_fetched_item_is_new(rest, led, max_depth, base_host);
                }
                Some(key) => {
                    if led.dom().contains(key) {
                        let led1 = led.insert(key, cnt_inc(led[key]));
                        lemma_fetched_item_is_new(rest, led1, max_depth, base_host);
                        assert(led1.dom() =~= led.dom());
                    } else {
                    }
                },
            }
        }
    }
}

/// The ledger only grows along a drain: every recorded key stays
/// recorded with a count that never goes down, and the only key that can
/// newly appear is the one of the item handed out for fetching, at
/// count 1 — a key is inserted exactly once, on first admission.
pub proof fn lemma_drain_ledger_monotone(
    work: Seq<(String, usize)>,
    led: Map<Seq<char>, nat>,
    max_depth: usize,
    base_host: Option<Seq<char>>,
)
    ensures
        ({
            let (w2, led2, r) = drain(work, led, max_depth, base_host);
            &&& (forall|k: Seq<char>|
                #[trigger] led.dom().contains(k) ==> led2.dom().contains(k) && led2[k] >= led[k])
            &&& (forall|k: Seq<char>|
                !led.dom().contains(k) && #[trigger] led2.dom().contains(k) ==> (r matches Some(
                    item,
                ) && admitted_key(item.0@, base_host) == Some(k) && led2[k] == 1))
        }),
    decreases work.len(),
{
    if work.len() > 0 {
        let item = work.last();
        let rest = work.drop_last();
        if item.1 > max_depth {
            lemma_drain_ledger_monotone(rest, led, max_depth, base_host);
        } else {
            match admitted_key(item.0@, base_host) {
                None => {
                    lemma_drain_ledger_monotone(rest, led, max_depth, base_host);
                }
                Some(key) => {
                    if led.dom().contains(key) {
                        let led1 = led.insert(key, cnt_inc(led[key]));
                        lemma_drain_ledger_monotone(rest, led1, max_depth, base_host);
                        assert(led1.dom() =~= led.dom());
                    } else {
                    }
                },
            }
        }
    }
}

/// Re-encountering an already-visited page increments its count and
/// issues no fetch: the traversal carries on with the rest of the work
/// list, so a cycle of pages linking back to one another cannot make the
/// work list grow again at pop time.
pub proof fn lemma_revisit_increments(
    work: Seq<(String, usize)>,
    led: Map<Seq<char>, nat>,
    max_depth: usize,
    base_host: Option<Seq<char>>,
)
    requires
        work.len() > 0,
        work.last().1 <= max_depth,
        admitted_key(work.last().0@, base_host) matches Some(key) && led.dom().contains(key),
    ensures
        ({
            let key = admitted_key(work.last().0@, base_host)->Some_0;
            drain(work, led, max_depth, base_host) == drain(
                work.drop_last(),
                led.insert(key, cnt_inc(led[key])),
                max_depth,
                base_host,
            )
        }),
{
}

} // verus!
