use webcrawler::ledger::Ledger;
use webcrawler::report::{sort_pages, SortOrder};

fn ledger_with(counts: &[(&str, usize)]) -> Ledger {
    let mut led = Ledger::new();
    for (key, count) in counts {
        let key = key.to_string();
        led.insert_new(key.clone());
        for _ in 1..*count {
            led.increment(&key);
        }
    }
    led
}

#[test]
fn test_sort_pages() {
    let input = ledger_with(&[
        ("url1", 5),
        ("url2", 1),
        ("url3", 3),
        ("url4", 10),
        ("url5", 7),
    ]);
    let actual = sort_pages(&input, SortOrder::Descending, |_, _| true);
    let expected = vec![
        ("url4".to_string(), 10),
        ("url5".to_string(), 7),
        ("url1".to_string(), 5),
        ("url3".to_string(), 3),
        ("url2".to_string(), 1),
    ];
    assert_eq!(actual, expected);
}

#[test]
fn test_sort_pages_null_case() {
    let input = ledger_with(&[]);
    let actual = sort_pages(&input, SortOrder::Descending, |_, _| true);
    let expected: Vec<(String, usize)> = vec![];
    assert_eq!(actual, expected);
}

#[test]
fn test_sort_pages_ascending() {
    let input = ledger_with(&[("a", 4), ("b", 2), ("c", 9)]);
    let actual = sort_pages(&input, SortOrder::Ascending, |_, _| true);
    let expected = vec![
        ("b".to_string(), 2),
        ("a".to_string(), 4),
        ("c".to_string(), 9),
    ];
    assert_eq!(actual, expected);
}

#[test]
fn test_sort_pages_filter_drops_rows() {
    let input = ledger_with(&[("a", 4), ("b", 2), ("c", 9)]);
    let actual = sort_pages(&input, SortOrder::Descending, |_, count| *count >= 4);
    let expected = vec![("c".to_string(), 9), ("a".to_string(), 4)];
    assert_eq!(actual, expected);
}

#[test]
fn test_ledger_counts_and_emptiness() {
    let mut led = Ledger::new();
    assert!(led.is_empty());
    led.insert_new("example.com".to_string());
    assert!(!led.is_empty());
    assert_eq!(led.get(&"example.com".to_string()), Some(1));
    led.increment(&"example.com".to_string());
    led.increment(&"example.com".to_string());
    assert_eq!(led.get(&"example.com".to_string()), Some(3));
    assert!(!led.contains_key(&"example.org".to_string()));
    assert!(led.contains_key(&"example.com".to_string()));
}
