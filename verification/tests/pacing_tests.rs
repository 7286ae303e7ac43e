use crawl_engine::outcome::{CrawlResult, FetchError, Outcome, SkipReason};
use crawl_engine::pacing::Pacing;
use crawl_engine::url::{Origin, Scheme, Url};

fn url(text: &[u8]) -> Url {
    Url::parse(text).ok().expect("a URL")
}

#[test]
fn requests_to_one_origin_are_spaced_by_the_delay() {
    let mut pacing = Pacing::new();
    let a = Origin::new(Scheme::Https, b"a.test", 443);
    assert_eq!(pacing.free_from(&a), 0);
    assert_eq!(pacing.reserve(&a, 1_000, 250), 1_000);
    assert_eq!(pacing.free_from(&a), 1_250);
    assert_eq!(pacing.reserve(&a, 1_001, 250), 1_250);
    assert_eq!(pacing.reserve(&a, 1_002, 250), 1_500);
    assert_eq!(pacing.reserve(&a, 5_000, 250), 5_000);
    assert_eq!(pacing.free_from(&a), 5_250);
}

#[test]
fn origins_do_not_hold_each_other_back() {
    let mut pacing = Pacing::new();
    let a = Origin::new(Scheme::Https, b"a.test", 443);
    let b = Origin::new(Scheme::Https, b"b.test", 443);
    assert_eq!(pacing.reserve(&a, 100, 1_000), 100);
    assert_eq!(pacing.reserve(&b, 101, 1_000), 101);
    assert_eq!(pacing.reserve(&a, 102, 1_000), 1_100);
    assert_eq!(pacing.reserve(&b, 103, 0), 1_101);
    assert_eq!(pacing.reserve(&b, 104, 0), 1_101);
}

#[test]
fn no_delay_means_no_waiting() {
    let mut pacing = Pacing::new();
    let a = Origin::new(Scheme::Http, b"a.test", 80);
    assert_eq!(pacing.reserve(&a, 7, 0), 7);
    assert_eq!(pacing.reserve(&a, 7, 0), 7);
    assert_eq!(pacing.reserve(&a, 3, 0), 7);
}

#[test]
fn the_end_of_time_is_not_overrun() {
    let mut pacing = Pacing::new();
    let a = Origin::new(Scheme::Http, b"a.test", 80);
    assert_eq!(pacing.reserve(&a, u64::MAX - 1, 10), u64::MAX - 1);
    assert_eq!(pacing.free_from(&a), u64::MAX);
    assert_eq!(pacing.reserve(&a, 0, 10), u64::MAX);
}

#[test]
fn the_first_outcome_of_a_url_stands() {
    let mut result = CrawlResult::new();
    let a = url(b"http://h/a");
    let b = url(b"http://h/b");
    let c = url(b"http://h/c");
    result.record(&a, Outcome::Visited { links: 2 });
    result.record(&b, Outcome::Failed(FetchError::Status(404)));
    result.record(&c, Outcome::Skipped(SkipReason::OutOfScope));
    result.record(&a, Outcome::Failed(FetchError::Timeout));
    result.record(&b, Outcome::Visited { links: 0 });
    assert_eq!(result.outcome_of(&a), Some(Outcome::Visited { links: 2 }));
    assert_eq!(result.outcome_of(&b), Some(Outcome::Failed(FetchError::Status(404))));
    assert_eq!(result.outcome_of(&c), Some(Outcome::Skipped(SkipReason::OutOfScope)));
    assert_eq!(result.outcome_of(&url(b"http://h/d")), None);
    assert_eq!(result.urls().len(), 3);
    assert_eq!(result.outcomes().len(), 3);
    let visited: Vec<Vec<u8>> = result.visited().iter().map(|u| u.to_bytes()).collect();
    assert_eq!(visited, vec![b"http://h/a".to_vec()]);
}

#[test]
fn visited_urls_keep_the_order_of_their_visits() {
    let mut result = CrawlResult::new();
    result.record(&url(b"http://h/2"), Outcome::Visited { links: 0 });
    result.record(&url(b"http://h/x"), Outcome::Skipped(SkipReason::RobotsDenied));
    result.record(&url(b"http://h/1"), Outcome::Visited { links: 5 });
    result.record(&url(b"http://h/y"), Outcome::Failed(FetchError::Connection));
    result.record(&url(b"http://h/3"), Outcome::Visited { links: 1 });
    let visited: Vec<Vec<u8>> = result.visited().iter().map(|u| u.to_bytes()).collect();
    assert_eq!(visited, vec![b"http://h/2".to_vec(), b"http://h/1".to_vec(), b"http://h/3".to_vec()]);
}
