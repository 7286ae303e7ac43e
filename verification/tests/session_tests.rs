use crawl_engine::budget::Limit;
use crawl_engine::outcome::{CrawlResult, FetchError, Outcome, SkipReason};
use crawl_engine::scope::ScopePolicy;
use crawl_engine::session::{Action, CrawlConfig, CrawlSession, Fetched};
use crawl_engine::url::{Url, UrlError};

/// A web of pages and robots files, and a count of what was asked of it.
struct Site {
    pages: Vec<(Vec<u8>, Vec<u8>)>,
    robots: Vec<(Vec<u8>, Vec<u8>)>,
    fetched: Vec<Vec<u8>>,
    robots_fetched: Vec<Vec<u8>>,
}

impl Site {
    fn new() -> Site {
        Site { pages: Vec::new(), robots: Vec::new(), fetched: Vec::new(), robots_fetched: Vec::new() }
    }

    fn page(mut self, url: &[u8], body: &[u8]) -> Site {
        self.pages.push((url.to_vec(), body.to_vec()));
        self
    }

    fn robots(mut self, url: &[u8], body: &[u8]) -> Site {
        self.robots.push((url.to_vec(), body.to_vec()));
        self
    }

    fn fetch(&mut self, url: &Url) -> Fetched {
        let key = url.to_bytes();
        self.fetched.push(key.clone());
        match self.pages.iter().find(|(u, _)| *u == key) {
            Some((_, body)) => Fetched::Page(body.clone()),
            None => Fetched::Failed(FetchError::Status(404)),
        }
    }

    fn fetch_robots(&mut self, url: &Url) -> Option<Vec<u8>> {
        let key = url.to_bytes();
        self.robots_fetched.push(key.clone());
        self.robots.iter().find(|(u, _)| *u == key).map(|(_, body)| body.clone())
    }
}

fn policy() -> ScopePolicy {
    ScopePolicy {
        respect_robots: true,
        include_subdomains: true,
        match_tld_only: false,
        allowed_external_domains: vec![Url::parse(b"https://creativecommons.org/licenses/by/3.0/")
            .ok()
            .unwrap()
            .origin()],
        blocked_url_prefixes: vec![b"https://choosealicense.com/licenses/".to_vec()],
        user_agent: b"crawler/version".to_vec(),
        request_delay: 0,
        request_timeout: None,
    }
}

fn config() -> CrawlConfig {
    CrawlConfig {
        policy: policy(),
        budget: vec![
            Limit { pattern: b"*".to_vec(), limit: 300 },
            Limit { pattern: b"/licenses".to_vec(), limit: 10 },
        ],
        workers: 1,
    }
}

/// Drives a session with one worker until it is done.
fn run(session: &mut CrawlSession, site: &mut Site) {
    let mut now: u64 = 0;
    for _ in 0..10_000 {
        now += 1;
        match session.next_action(now) {
            Action::Done => return,
            Action::Wait => panic!("one worker never has to wait"),
            Action::FetchRobots { origin, url } => {
                let body = site.fetch_robots(&url);
                session.on_robots(&origin, body.as_deref(), now);
            }
            Action::Fetch { url, not_before } => {
                assert!(not_before >= now);
                let fetched = site.fetch(&url);
                assert!(session.on_page(&url, fetched));
            }
        }
    }
    panic!("the crawl did not end");
}

fn crawl(seed: &[u8], config: CrawlConfig, site: &mut Site) -> CrawlResult {
    let mut session = CrawlSession::new(seed, config).ok().expect("a session");
    run(&mut session, site);
    assert!(session.is_done());
    assert_eq!(session.pending(), 0);
    session.into_result()
}

fn visited(result: &CrawlResult) -> Vec<Vec<u8>> {
    result.visited().iter().map(|u| u.to_bytes()).collect()
}

fn outcome(result: &CrawlResult, url: &[u8]) -> Option<Outcome> {
    result.outcome_of(&Url::parse(url).ok().unwrap())
}

#[test]
fn end_to_end_crawl_visits_pages_and_skips_the_blocked_link() {
    let mut site = Site::new()
        .page(
            b"https://example.test/",
            b"<a href=\"/a\">a</a> <a href=\"/b\">b</a> <a href=\"https://choosealicense.com/licenses/\">l</a>",
        )
        .page(b"https://example.test/a", b"<p>a</p>")
        .page(b"https://example.test/b", b"<a href=\"/\">home</a>");
    let result = crawl(b"https://example.test/", config(), &mut site);
    assert_eq!(
        visited(&result),
        vec![
            b"https://example.test/".to_vec(),
            b"https://example.test/a".to_vec(),
            b"https://example.test/b".to_vec(),
        ]
    );
    assert_eq!(outcome(&result, b"https://example.test/"), Some(Outcome::Visited { links: 3 }));
    assert_eq!(outcome(&result, b"https://example.test/a"), Some(Outcome::Visited { links: 0 }));
    assert_eq!(outcome(&result, b"https://example.test/b"), Some(Outcome::Visited { links: 1 }));
    assert_eq!(
        outcome(&result, b"https://choosealicense.com/licenses/"),
        Some(Outcome::Skipped(SkipReason::OutOfScope))
    );
    assert_eq!(
        site.fetched,
        vec![
            b"https://example.test/".to_vec(),
            b"https://example.test/a".to_vec(),
            b"https://example.test/b".to_vec(),
        ]
    );
    assert_eq!(site.robots_fetched, vec![b"https://example.test/robots.txt".to_vec()]);
}

#[test]
fn an_unparseable_seed_is_fatal() {
    assert_eq!(CrawlSession::new(b"not a url", config()).err(), Some(UrlError::InvalidCharacter));
    assert_eq!(CrawlSession::new(b"example.test", config()).err(), Some(UrlError::MissingScheme));
    assert_eq!(
        CrawlSession::new(b"ftp://example.test/", config()).err(),
        Some(UrlError::UnsupportedScheme)
    );
    assert!(CrawlSession::new(b"https://example.test", config()).is_ok());
}

#[test]
fn robots_txt_is_fetched_once_per_origin_with_two_workers() {
    let mut session = CrawlSession::new(b"https://example.test/", config()).ok().unwrap();
    // The first worker is told to fetch the robots.txt; the second has to wait for it.
    let (origin, robots_url) = match session.next_action(1) {
        Action::FetchRobots { origin, url } => (origin, url),
        _ => panic!("the first worker fetches the robots.txt"),
    };
    assert_eq!(robots_url.to_bytes(), b"https://example.test/robots.txt".to_vec());
    assert!(matches!(session.next_action(1), Action::Wait));
    assert!(matches!(session.next_action(2), Action::Wait));
    session.on_robots(&origin, Some(b"User-agent: *\nDisallow: /private\n"), 3);
    // Now the seed is handed out, once.
    let seed = match session.next_action(4) {
        Action::Fetch { url, .. } => url,
        _ => panic!("the seed is handed out"),
    };
    assert!(matches!(session.next_action(4), Action::Wait));
    let body = b"<a href=\"/x\">x</a><a href=\"/y\">y</a><a href=\"/private/z\">z</a>".to_vec();
    assert!(session.on_page(&seed, Fetched::Page(body)));
    // Both workers get a page of the same origin; nobody fetches the robots.txt again.
    let first = match session.next_action(5) {
        Action::Fetch { url, .. } => url,
        _ => panic!("a page is handed out"),
    };
    let second = match session.next_action(5) {
        Action::Fetch { url, .. } => url,
        _ => panic!("a page is handed out"),
    };
    assert_eq!(first.to_bytes(), b"https://example.test/x".to_vec());
    assert_eq!(second.to_bytes(), b"https://example.test/y".to_vec());
    assert_eq!(session.pending(), 2);
    assert!(matches!(session.next_action(5), Action::Wait));
    assert!(session.on_page(&second, Fetched::Page(Vec::new())));
    assert!(!session.is_done());
    assert!(session.on_page(&first, Fetched::Failed(FetchError::Timeout)));
    assert!(session.is_done());
    assert!(matches!(session.next_action(6), Action::Done));
    let result = session.into_result();
    assert_eq!(
        visited(&result),
        vec![b"https://example.test/".to_vec(), b"https://example.test/y".to_vec()]
    );
    assert_eq!(
        outcome(&result, b"https://example.test/x"),
        Some(Outcome::Failed(FetchError::Timeout))
    );
    assert_eq!(
        outcome(&result, b"https://example.test/private/z"),
        Some(Outcome::Skipped(SkipReason::RobotsDenied))
    );
}

#[test]
fn each_origin_has_its_own_robots_txt() {
    let mut site = Site::new()
        .page(
            b"https://example.test/",
            b"<a href=\"https://docs.example.test/guide\">g</a><a href=\"https://docs.example.test/secret\">s</a><a href=\"http://example.test/plain\">p</a>",
        )
        .page(b"https://docs.example.test/guide", b"<a href=\"secret\">s</a><a href=\"more\">m</a>")
        .page(b"https://docs.example.test/more", b"")
        .page(b"https://docs.example.test/secret", b"")
        .robots(b"https://docs.example.test/robots.txt", b"User-agent: crawler\nDisallow: /secret\n");
    let result = crawl(b"https://example.test/", config(), &mut site);
    assert_eq!(
        site.robots_fetched,
        vec![
            b"https://example.test/robots.txt".to_vec(),
            b"https://docs.example.test/robots.txt".to_vec(),
            b"http://example.test/robots.txt".to_vec(),
        ]
    );
    assert_eq!(
        visited(&result),
        vec![
            b"https://example.test/".to_vec(),
            b"https://docs.example.test/guide".to_vec(),
            b"https://docs.example.test/more".to_vec(),
        ]
    );
    assert_eq!(
        outcome(&result, b"https://docs.example.test/secret"),
        Some(Outcome::Skipped(SkipReason::RobotsDenied))
    );
    assert_eq!(
        outcome(&result, b"http://example.test/plain"),
        Some(Outcome::Failed(FetchError::Status(404)))
    );
    assert!(!site.fetched.contains(&b"https://docs.example.test/secret".to_vec()));
}

#[test]
fn without_respect_for_robots_nothing_is_asked_of_them() {
    let mut cfg = config();
    cfg.policy.respect_robots = false;
    let mut site = Site::new()
        .page(b"https://example.test/", b"<a href=\"/private\">p</a>")
        .page(b"https://example.test/private", b"")
        .robots(b"https://example.test/robots.txt", b"User-agent: *\nDisallow: /\n");
    let result = crawl(b"https://example.test/", cfg, &mut site);
    assert!(site.robots_fetched.is_empty());
    assert_eq!(
        visited(&result),
        vec![b"https://example.test/".to_vec(), b"https://example.test/private".to_vec()]
    );
}

#[test]
fn a_seed_denied_by_robots_is_skipped() {
    let mut site = Site::new()
        .page(b"https://example.test/", b"<a href=\"/a\">a</a>")
        .robots(b"https://example.test/robots.txt", b"User-agent: *\nDisallow: /\n");
    let result = crawl(b"https://example.test/", config(), &mut site);
    assert!(visited(&result).is_empty());
    assert!(site.fetched.is_empty());
    assert_eq!(
        outcome(&result, b"https://example.test/"),
        Some(Outcome::Skipped(SkipReason::RobotsDenied))
    );
}

#[test]
fn a_blocked_seed_ends_the_crawl_at_once() {
    let mut cfg = config();
    cfg.policy.blocked_url_prefixes = vec![b"https://example.test/".to_vec()];
    let mut site = Site::new().page(b"https://example.test/", b"<a href=\"/a\">a</a>");
    let result = crawl(b"https://example.test/", cfg, &mut site);
    assert!(visited(&result).is_empty());
    assert!(site.fetched.is_empty());
    assert!(site.robots_fetched.is_empty());
    assert_eq!(
        outcome(&result, b"https://example.test/"),
        Some(Outcome::Skipped(SkipReason::OutOfScope))
    );
}

#[test]
fn the_budget_caps_the_pages_under_a_pattern() {
    let mut cfg = config();
    cfg.budget = vec![
        Limit { pattern: b"*".to_vec(), limit: 2 },
        Limit { pattern: b"/licenses".to_vec(), limit: 1 },
    ];
    let mut site = Site::new()
        .page(
            b"https://example.test/",
            b"<a href=/licenses/a>1</a><a href=/licenses/b>2</a><a href=/x>3</a><a href=/y>4</a>",
        )
        .page(b"https://example.test/licenses/a", b"")
        .page(b"https://example.test/licenses/b", b"")
        .page(b"https://example.test/x", b"")
        .page(b"https://example.test/y", b"");
    let result = crawl(b"https://example.test/", cfg, &mut site);
    assert_eq!(
        visited(&result),
        vec![
            b"https://example.test/".to_vec(),
            b"https://example.test/licenses/a".to_vec(),
            b"https://example.test/x".to_vec(),
        ]
    );
    assert_eq!(
        outcome(&result, b"https://example.test/licenses/b"),
        Some(Outcome::Skipped(SkipReason::BudgetExhausted))
    );
    assert_eq!(
        outcome(&result, b"https://example.test/y"),
        Some(Outcome::Skipped(SkipReason::BudgetExhausted))
    );
    assert_eq!(site.fetched.len(), 3);
}

#[test]
fn subdomains_and_allow_listed_origins_are_crawled_and_others_skipped() {
    let mut site = Site::new()
        .page(
            b"https://example.com/",
            b"<a href=\"https://docs.example.com/x\">d</a><a href=\"https://other.org/x\">o</a><a href=\"https://creativecommons.org/licenses/by/3.0/\">c</a>",
        )
        .page(b"https://docs.example.com/x", b"")
        .page(b"https://creativecommons.org/licenses/by/3.0/", b"");
    let result = crawl(b"https://example.com", config(), &mut site);
    assert_eq!(
        visited(&result),
        vec![
            b"https://example.com/".to_vec(),
            b"https://docs.example.com/x".to_vec(),
            b"https://creativecommons.org/licenses/by/3.0/".to_vec(),
        ]
    );
    assert_eq!(
        outcome(&result, b"https://other.org/x"),
        Some(Outcome::Skipped(SkipReason::OutOfScope))
    );
    assert!(!site.fetched.contains(&b"https://other.org/x".to_vec()));
}

#[test]
fn pages_are_visited_breadth_first_and_once() {
    let mut site = Site::new()
        .page(b"http://h.test/", b"<a href=a>a</a><a href=b>b</a><a href=a>again</a>")
        .page(b"http://h.test/a", b"<a href=a1>1</a><a href=b>b</a><a href=\"./\">home</a>")
        .page(b"http://h.test/b", b"<a href=b1>1</a><a href=\"#top\">top</a>")
        .page(b"http://h.test/a1", b"<a href=\"mailto:someone@h.test\">m</a>")
        .page(b"http://h.test/b1", b"<a href=\"http://h.test/a1#again\">a1</a>");
    let result = crawl(b"http://h.test/", config(), &mut site);
    assert_eq!(
        visited(&result),
        vec![
            b"http://h.test/".to_vec(),
            b"http://h.test/a".to_vec(),
            b"http://h.test/b".to_vec(),
            b"http://h.test/a1".to_vec(),
            b"http://h.test/b1".to_vec(),
        ]
    );
    assert_eq!(site.fetched.len(), 5);
    assert_eq!(outcome(&result, b"http://h.test/a"), Some(Outcome::Visited { links: 3 }));
    assert_eq!(outcome(&result, b"http://h.test/a1"), Some(Outcome::Visited { links: 1 }));
    assert_eq!(result.urls().len(), 5);
}

#[test]
fn a_failed_page_does_not_end_the_crawl() {
    let mut site = Site::new()
        .page(b"http://h.test/", b"<a href=/gone>g</a><a href=/there>t</a>")
        .page(b"http://h.test/there", b"");
    let result = crawl(b"http://h.test/", config(), &mut site);
    assert_eq!(visited(&result), vec![b"http://h.test/".to_vec(), b"http://h.test/there".to_vec()]);
    assert_eq!(
        outcome(&result, b"http://h.test/gone"),
        Some(Outcome::Failed(FetchError::Status(404)))
    );
}

#[test]
fn requests_to_one_origin_keep_the_longer_of_the_two_delays() {
    let mut cfg = config();
    cfg.policy.request_delay = 500;
    let mut session = CrawlSession::new(b"http://h.test/", cfg).ok().unwrap();
    let (origin, _) = match session.next_action(1_000) {
        Action::FetchRobots { origin, url } => (origin, url),
        _ => panic!("robots first"),
    };
    session.on_robots(&origin, Some(b"User-agent: *\nCrawl-delay: 2\n"), 1_000);
    let seed = match session.next_action(1_000) {
        Action::Fetch { url, not_before } => {
            assert_eq!(not_before, 1_000);
            url
        }
        _ => panic!("the seed"),
    };
    session.on_page(&seed, Fetched::Page(b"<a href=/a>a</a><a href=/b>b</a>".to_vec()));
    let a = match session.next_action(1_200) {
        Action::Fetch { url, not_before } => {
            assert_eq!(not_before, 3_000);
            url
        }
        _ => panic!("page a"),
    };
    match session.next_action(1_300) {
        Action::Fetch { not_before, .. } => assert_eq!(not_before, 5_000),
        _ => panic!("page b"),
    }
    assert!(session.on_page(&a, Fetched::Page(Vec::new())));
}

#[test]
fn a_report_for_a_url_that_is_not_under_way_is_ignored() {
    let mut session = CrawlSession::new(b"http://h.test/", config()).ok().unwrap();
    let stranger = Url::parse(b"http://h.test/stranger").ok().unwrap();
    assert!(!session.on_page(&stranger, Fetched::Page(b"<a href=/x>x</a>".to_vec())));
    assert!(session.result().urls().is_empty());
    assert!(!session.is_done());
    let mut site = Site::new().page(b"http://h.test/", b"");
    run(&mut session, &mut site);
    let seed = Url::parse(b"http://h.test/").ok().unwrap();
    assert!(!session.on_page(&seed, Fetched::Failed(FetchError::Timeout)));
    assert_eq!(session.result().outcome_of(&seed), Some(Outcome::Visited { links: 0 }));
}

#[test]
fn cancellation_keeps_what_was_visited_and_ends_the_crawl() {
    let pages = || {
        Site::new()
            .page(b"http://h.test/", b"<a href=/a>a</a><a href=/b>b</a><a href=/c>c</a>")
            .page(b"http://h.test/a", b"<a href=/a1>1</a>")
            .page(b"http://h.test/b", b"")
            .page(b"http://h.test/c", b"")
            .page(b"http://h.test/a1", b"")
    };
    let mut whole = pages();
    let full = visited(&crawl(b"http://h.test/", config(), &mut whole));
    assert_eq!(full.len(), 5);

    let mut site = pages();
    let mut session = CrawlSession::new(b"http://h.test/", config()).ok().unwrap();
    let (origin, robots_url) = match session.next_action(1) {
        Action::FetchRobots { origin, url } => (origin, url),
        _ => panic!("robots first"),
    };
    let body = site.fetch_robots(&robots_url);
    session.on_robots(&origin, body.as_deref(), 1);
    let seed = match session.next_action(2) {
        Action::Fetch { url, .. } => url,
        _ => panic!("the seed"),
    };
    let fetched = site.fetch(&seed);
    session.on_page(&seed, fetched);
    let a = match session.next_action(3) {
        Action::Fetch { url, .. } => url,
        _ => panic!("page a"),
    };
    // The crawl is called off while /a is under way and /b and /c wait.
    session.cancel();
    assert!(session.is_done());
    assert!(matches!(session.next_action(4), Action::Done));
    assert_eq!(session.pending(), 1);
    let fetched = site.fetch(&a);
    assert!(session.on_page(&a, fetched));
    assert!(matches!(session.next_action(5), Action::Done));
    assert_eq!(session.pending(), 0);
    let partial = session.into_result();
    assert_eq!(visited(&partial), vec![b"http://h.test/".to_vec(), b"http://h.test/a".to_vec()]);
    for url in visited(&partial) {
        assert!(full.contains(&url));
    }
    assert_eq!(outcome(&partial, b"http://h.test/a1"), None);
    assert_eq!(outcome(&partial, b"http://h.test/b"), None);
    assert_eq!(site.fetched.len(), 2);
}
