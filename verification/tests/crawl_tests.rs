use webcrawler::crawl::{classify_response, is_error_status, CrawlError, Crawler, ResponseClass};

#[test]
fn test_normalize_url_protocol() {
    let crawler = Crawler::new("https://example.com");
    let input = "https://blog.boot.dev/path";
    let actual = crawler.normalize_url(input).unwrap();
    let expected = "blog.boot.dev/path";
    assert_eq!(actual, expected);
}

#[test]
fn test_normalize_url_slash() {
    let crawler = Crawler::new("https://example.com");
    let input = "https://blog.boot.dev/path/";
    let actual = crawler.normalize_url(input).unwrap();
    let expected = "blog.boot.dev/path";
    assert_eq!(actual, expected);
}

#[test]
fn test_normalize_url_capitals() {
    let crawler = Crawler::new("https://example.com");
    let input = "https://BLOG.boot.dev/path";
    let actual = crawler.normalize_url(input).unwrap();
    let expected = "blog.boot.dev/path";
    assert_eq!(actual, expected);
}

#[test]
fn test_normalize_url_http() {
    let crawler = Crawler::new("https://example.com");
    let input = "http://BLOG.boot.dev/path";
    let actual = crawler.normalize_url(input).unwrap();
    let expected = "blog.boot.dev/path";
    assert_eq!(actual, expected);
}

#[test]
fn test_normalize_url_root_path() {
    let crawler = Crawler::new("https://example.com");
    assert_eq!(crawler.normalize_url("https://blog.boot.dev/").unwrap(), "blog.boot.dev");
    assert_eq!(crawler.normalize_url("https://blog.boot.dev").unwrap(), "blog.boot.dev");
}

#[test]
fn test_normalize_url_rejects_malformed() {
    let crawler = Crawler::new("https://example.com");
    assert!(crawler.normalize_url("").is_none());
    assert!(crawler.normalize_url("blog.boot.dev/path").is_none());
    assert!(crawler.normalize_url("mailto:someone@example.com").is_none());
    assert!(crawler.normalize_url("://missing-scheme").is_none());
}

#[test]
fn test_normalize_url_idempotent_key() {
    // Normalization is a fixed point: feeding the canonical host and path
    // back through a URL with the same host and path changes nothing.
    let crawler = Crawler::new("https://example.com");
    let once = crawler.normalize_url("https://BLOG.boot.dev/Path/").unwrap();
    assert_eq!(once, "blog.boot.dev/path");
    let again = crawler.normalize_url("https://blog.boot.dev/path").unwrap();
    assert_eq!(again, once);
}

#[test]
fn test_get_urls_from_html_absolute() {
    let crawler = Crawler::new("https://example.com");
    let input_url = "https://blog.boot.dev";
    let input_body =
        "<html><body><a href=\"https://blog.boot.dev\"><span>Boot.dev></span></a></body></html>";
    let actual = crawler.get_urls_from_html(input_body, input_url);
    let expected = vec!["https://blog.boot.dev/"];
    assert_eq!(actual, expected);
}

#[test]
fn test_get_urls_from_html_relative() {
    let crawler = Crawler::new("https://example.com");
    let input_url = "https://blog.boot.dev";
    let input_body = "<html><body><a href=\"/path/one\"><span>Boot.dev></span></a></body></html>";
    let actual = crawler.get_urls_from_html(input_body, input_url);
    let expected = vec!["https://blog.boot.dev/path/one"];
    assert_eq!(actual, expected);
}

#[test]
fn test_get_urls_from_html_both() {
    let crawler = Crawler::new("https://example.com");
    let input_url = "https://blog.boot.dev";
    let input_body = "<html><body><a href=\"/path/one\"><span>Boot.dev></span></a><a href=\"https://other.com/path/one\"><span>Boot.dev></span></a></body></html>";
    let actual = crawler.get_urls_from_html(input_body, input_url);
    let expected = vec![
        "https://blog.boot.dev/path/one",
        "https://other.com/path/one",
    ];
    assert_eq!(actual, expected);
}

#[test]
fn test_get_urls_from_html_malformed_markup() {
    // Best-effort parsing: an unclosed anchor still yields its href.
    let crawler = Crawler::new("https://example.com");
    let input_url = "https://blog.boot.dev";
    let input_body = "<html><body><a href=\"/one\"><p>busted";
    let actual = crawler.get_urls_from_html(input_body, input_url);
    let expected = vec!["https://blog.boot.dev/one"];
    assert_eq!(actual, expected);
}

#[test]
fn test_start_crawl_rejects_bad_base() {
    let mut crawler = Crawler::new("not a url at all");
    let r = crawler.start_crawl("not a url at all", 2);
    assert!(matches!(r, Err(CrawlError::InvalidBaseUrl)));
}

#[test]
fn test_crawl_depth_zero_visits_only_seed() {
    // With depth limit 0 the seed is fetched and everything it links to is
    // discarded at pop time: the ledger holds exactly the seed page.
    let mut crawler = Crawler::new("https://example.com");
    crawler.start_crawl("https://example.com", 0).unwrap();

    let (url, depth) = crawler.next_url().unwrap();
    assert_eq!(url, "https://example.com");
    assert_eq!(depth, 0);

    let body = "<html><body><a href=\"/a\">a</a><a href=\"/b\">b</a></body></html>";
    crawler.on_html(body, depth);

    assert!(crawler.next_url().is_none());
    let pages = crawler.pages();
    assert_eq!(pages.get(&"example.com".to_string()), Some(1));
    assert_eq!(pages.get(&"example.com/a".to_string()), None);
    assert_eq!(pages.get(&"example.com/b".to_string()), None);
}

#[test]
fn test_crawl_cycle_terminates_and_counts_revisit() {
    // Page a links to page b, page b links back to page a: the revisit of
    // a increments its count instead of fetching or enqueuing again.
    let mut crawler = Crawler::new("https://example.com");
    crawler.start_crawl("https://example.com/a", 10).unwrap();

    let (url, depth) = crawler.next_url().unwrap();
    assert_eq!(url, "https://example.com/a");
    crawler.on_html("<html><body><a href=\"/b\">b</a></body></html>", depth);

    let (url, depth) = crawler.next_url().unwrap();
    assert_eq!(url, "https://example.com/b");
    crawler.on_html("<html><body><a href=\"/a\">a</a></body></html>", depth);

    assert!(crawler.next_url().is_none());
    let pages = crawler.pages();
    assert_eq!(pages.get(&"example.com/a".to_string()), Some(2));
    assert_eq!(pages.get(&"example.com/b".to_string()), Some(1));
}

#[test]
fn test_crawl_offsite_links_never_counted() {
    let mut crawler = Crawler::new("https://example.com");
    crawler.start_crawl("https://example.com", 3).unwrap();

    let (url, depth) = crawler.next_url().unwrap();
    assert_eq!(url, "https://example.com");
    let body = "<html><body><a href=\"https://other.com/x\">x</a><a href=\"/here\">h</a></body></html>";
    crawler.on_html(body, depth);

    let (url, depth2) = crawler.next_url().unwrap();
    assert_eq!(url, "https://example.com/here");
    assert_eq!(depth2, depth + 1);

    assert!(crawler.next_url().is_none());
    let pages = crawler.pages();
    assert_eq!(pages.get(&"example.com".to_string()), Some(1));
    assert_eq!(pages.get(&"example.com/here".to_string()), Some(1));
    assert_eq!(pages.get(&"other.com/x".to_string()), None);
}

#[test]
fn test_crawl_failed_branch_is_skipped_not_fatal() {
    // A non-seed page answering with an error is skipped: its body is
    // never handed back, it stays visited-once, and the crawl completes.
    let mut crawler = Crawler::new("https://example.com");
    crawler.start_crawl("https://example.com", 5).unwrap();

    let (url, depth) = crawler.next_url().unwrap();
    assert_eq!(url, "https://example.com");
    let body = "<html><body><a href=\"/bad\">bad</a><a href=\"/good\">good</a></body></html>";
    crawler.on_html(body, depth);

    // LIFO: /good was pushed last, so it is popped first.
    let (url, depth) = crawler.next_url().unwrap();
    assert_eq!(url, "https://example.com/good");
    crawler.on_html("<html><body></body></html>", depth);

    let (url, _depth) = crawler.next_url().unwrap();
    assert_eq!(url, "https://example.com/bad");
    // Simulated HTTP 500: the driver consults is_error_status and hands
    // nothing back for this branch.
    assert!(is_error_status(500));

    assert!(crawler.next_url().is_none());
    let pages = crawler.pages();
    assert_eq!(pages.get(&"example.com".to_string()), Some(1));
    assert_eq!(pages.get(&"example.com/good".to_string()), Some(1));
    assert_eq!(pages.get(&"example.com/bad".to_string()), Some(1));
}

#[test]
fn test_is_error_status_ranges() {
    assert!(!is_error_status(200));
    assert!(!is_error_status(301));
    assert!(!is_error_status(399));
    assert!(is_error_status(400));
    assert!(is_error_status(404));
    assert!(is_error_status(500));
    assert!(is_error_status(599));
    assert!(!is_error_status(600));
}

#[test]
fn test_classify_response_content_types() {
    assert!(matches!(
        classify_response(Some("text/html; charset=utf-8")),
        ResponseClass::Html
    ));
    assert!(matches!(classify_response(Some("text/html")), ResponseClass::Html));
    assert!(matches!(
        classify_response(Some("application/json")),
        ResponseClass::NonHtml
    ));
    assert!(matches!(classify_response(None), ResponseClass::MissingContentType));
}
