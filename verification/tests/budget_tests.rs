use crawl_engine::budget::{BudgetTracker, Limit};
use crawl_engine::url::Url;

fn url(text: &[u8]) -> Url {
    Url::parse(text).ok().expect("a URL")
}

fn limit(pattern: &[u8], limit: u32) -> Limit {
    Limit { pattern: pattern.to_vec(), limit }
}

fn standard() -> BudgetTracker {
    BudgetTracker::new(&vec![limit(b"*", 300), limit(b"/licenses", 10)])
}

#[test]
fn longest_prefix_governs_and_default_absorbs_the_rest() {
    let mut budget = standard();
    assert!(budget.try_consume(&url(b"https://example.com/licenses/by/3.0/")));
    assert_eq!(budget.remaining(b"/licenses"), Some(9));
    assert_eq!(budget.remaining(b"*"), Some(300));
    assert!(budget.try_consume(&url(b"https://example.com/about")));
    assert_eq!(budget.remaining(b"/licenses"), Some(9));
    assert_eq!(budget.remaining(b"*"), Some(299));
    assert_eq!(budget.remaining(b"/other"), None);
}

#[test]
fn consumption_never_exceeds_the_limit() {
    let mut budget = BudgetTracker::new(&vec![limit(b"*", 2), limit(b"/a", 1)]);
    assert!(budget.try_consume(&url(b"http://h/a/1")));
    assert!(!budget.try_consume(&url(b"http://h/a/2")));
    assert!(!budget.try_consume(&url(b"http://h/a/3")));
    assert_eq!(budget.remaining(b"/a"), Some(0));
    assert_eq!(budget.remaining(b"*"), Some(2));
    assert!(budget.try_consume(&url(b"http://h/b/1")));
    assert!(budget.try_consume(&url(b"http://h/b/2")));
    assert!(!budget.try_consume(&url(b"http://h/b/3")));
    assert_eq!(budget.remaining(b"*"), Some(0));
    assert_eq!(budget.remaining(b"/a"), Some(0));
}

#[test]
fn a_url_is_charged_once() {
    let mut budget = BudgetTracker::new(&vec![limit(b"*", 1)]);
    let page = url(b"http://h/page");
    assert!(budget.try_consume(&page));
    assert_eq!(budget.remaining(b"*"), Some(0));
    assert!(budget.try_consume(&page));
    assert!(budget.try_consume(&url(b"HTTP://H:80/page#again")));
    assert_eq!(budget.remaining(b"*"), Some(0));
    assert!(!budget.try_consume(&url(b"http://h/other")));
}

#[test]
fn the_longest_of_several_prefixes_wins() {
    let mut budget = BudgetTracker::new(&vec![
        limit(b"/docs", 5),
        limit(b"/docs/api", 1),
        limit(b"*", 9),
        limit(b"/", 7),
    ]);
    assert!(budget.try_consume(&url(b"http://h/docs/api/v1")));
    assert_eq!(budget.remaining(b"/docs/api"), Some(0));
    assert_eq!(budget.remaining(b"/docs"), Some(5));
    assert!(!budget.try_consume(&url(b"http://h/docs/api/v2")));
    assert!(budget.try_consume(&url(b"http://h/docs/guide")));
    assert_eq!(budget.remaining(b"/docs"), Some(4));
    assert!(budget.try_consume(&url(b"http://h/else")));
    assert_eq!(budget.remaining(b"/"), Some(6));
    assert_eq!(budget.remaining(b"*"), Some(9));
}

#[test]
fn without_a_governing_pattern_nothing_is_capped() {
    let mut budget = BudgetTracker::new(&vec![limit(b"/only", 0)]);
    assert!(budget.try_consume(&url(b"http://h/free")));
    assert!(!budget.try_consume(&url(b"http://h/only/this")));
    assert_eq!(budget.remaining(b"/only"), Some(0));
    let mut none = BudgetTracker::new(&Vec::new());
    assert!(none.try_consume(&url(b"http://h/x")));
    assert_eq!(none.remaining(b"*"), None);
}

#[test]
fn of_two_caps_for_one_pattern_the_last_counts() {
    let budget = BudgetTracker::new(&vec![limit(b"*", 3), limit(b"/a", 1), limit(b"*", 8)]);
    assert_eq!(budget.remaining(b"*"), Some(8));
    assert_eq!(budget.remaining(b"/a"), Some(1));
}

#[test]
fn the_query_does_not_count_for_the_pattern() {
    let mut budget = BudgetTracker::new(&vec![limit(b"/a?x", 1), limit(b"*", 1)]);
    assert!(budget.try_consume(&url(b"http://h/a?x=1")));
    assert_eq!(budget.remaining(b"/a?x"), Some(1));
    assert_eq!(budget.remaining(b"*"), Some(0));
}
