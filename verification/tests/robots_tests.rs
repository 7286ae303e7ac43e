use crawl_engine::cache::{RobotsCache, Status};
use crawl_engine::robots::{token_of, RobotsRules};
use crawl_engine::scope::ScopePolicy;
use crawl_engine::url::{Origin, Scheme, Url};

fn url(text: &[u8]) -> Url {
    Url::parse(text).ok().expect("a URL")
}

#[test]
fn the_product_token_is_the_agent_up_to_the_slash() {
    assert_eq!(token_of(b"MyCrawler/version"), b"mycrawler".to_vec());
    assert_eq!(token_of(b"plain"), b"plain".to_vec());
    assert_eq!(token_of(b"/odd"), b"".to_vec());
    assert_eq!(token_of(b""), b"".to_vec());
}

#[test]
fn no_rules_allow_everything() {
    let rules = RobotsRules::allow_all();
    assert!(rules.allows(b"/"));
    assert!(rules.allows(b"/anything?x=1"));
    assert_eq!(rules.crawl_delay(), 0);
    let empty = RobotsRules::parse(b"", b"bot");
    assert!(empty.allows(b"/x"));
    assert_eq!(empty.crawl_delay(), 0);
}

#[test]
fn wildcard_group_applies_when_no_group_names_the_crawler() {
    let body = b"User-agent: *\nDisallow: /private\nCrawl-delay: 2\n";
    let rules = RobotsRules::parse(body, b"bot");
    assert!(!rules.allows(b"/private"));
    assert!(!rules.allows(b"/private/x"));
    assert!(rules.allows(b"/public"));
    assert!(rules.allows(b"/"));
    assert_eq!(rules.crawl_delay(), 2000);
}

#[test]
fn a_group_that_names_the_crawler_replaces_the_wildcard_group() {
    let body = b"User-agent: *\nDisallow: /\n\nUser-agent: Bot\nDisallow: /secret\nCrawl-delay: 1\n";
    let rules = RobotsRules::parse(body, b"bot");
    assert!(rules.allows(b"/"));
    assert!(rules.allows(b"/open"));
    assert!(!rules.allows(b"/secret/x"));
    assert_eq!(rules.crawl_delay(), 1000);
    let other = RobotsRules::parse(body, b"other");
    assert!(!other.allows(b"/"));
    assert!(!other.allows(b"/open"));
    assert_eq!(other.crawl_delay(), 0);
}

#[test]
fn the_longest_match_decides_and_allow_wins_a_tie() {
    let body = b"User-agent: *\nDisallow: /a\nAllow: /a/b\nDisallow: /a/b/c\nAllow: /t\nDisallow: /t\n";
    let rules = RobotsRules::parse(body, b"bot");
    assert!(!rules.allows(b"/a"));
    assert!(!rules.allows(b"/a/x"));
    assert!(rules.allows(b"/a/b"));
    assert!(rules.allows(b"/a/b/x"));
    assert!(!rules.allows(b"/a/b/c"));
    assert!(!rules.allows(b"/a/b/c/d"));
    assert!(rules.allows(b"/t"));
    assert!(rules.allows(b"/z"));
}

#[test]
fn comments_case_blanks_and_carriage_returns_do_not_matter() {
    let body =
        b"# a comment\r\n  USER-AGENT :  Bot  # the crawler\r\n\tdisallow:/x # no x\r\nCRAWL-DELAY: 3\r\n";
    let rules = RobotsRules::parse(body, b"bot");
    assert!(!rules.allows(b"/x"));
    assert!(!rules.allows(b"/xy"));
    assert!(rules.allows(b"/y"));
    assert_eq!(rules.crawl_delay(), 3000);
}

#[test]
fn several_agents_share_one_group() {
    let body = b"User-agent: one\nUser-agent: bot\nUser-agent: two\nDisallow: /shared\n\nUser-agent: three\nDisallow: /three\n";
    let rules = RobotsRules::parse(body, b"bot");
    assert!(!rules.allows(b"/shared"));
    assert!(rules.allows(b"/three"));
    let three = RobotsRules::parse(body, b"three");
    assert!(three.allows(b"/shared"));
    assert!(!three.allows(b"/three"));
}

#[test]
fn groups_for_one_agent_add_up() {
    let body = b"User-agent: bot\nDisallow: /a\n\nUser-agent: x\nDisallow: /x\n\nUser-agent: bot\nDisallow: /b\n";
    let rules = RobotsRules::parse(body, b"bot");
    assert!(!rules.allows(b"/a"));
    assert!(!rules.allows(b"/b"));
    assert!(rules.allows(b"/x"));
}

#[test]
fn an_empty_disallow_disallows_nothing() {
    let rules = RobotsRules::parse(b"User-agent: *\nDisallow:\n", b"bot");
    assert!(rules.allows(b"/"));
    assert!(rules.allows(b"/x"));
}

#[test]
fn rules_before_any_agent_and_unknown_lines_are_ignored() {
    let body = b"Disallow: /early\nSitemap: https://h/sitemap.xml\nnonsense\nUser-agent: *\nSitemap: https://h/s2.xml\nDisallow: /late\n";
    let rules = RobotsRules::parse(body, b"bot");
    assert!(rules.allows(b"/early"));
    assert!(!rules.allows(b"/late"));
}

#[test]
fn crawl_delay_takes_digits_only_and_is_capped() {
    let fraction = RobotsRules::parse(b"User-agent: *\nCrawl-delay: 1.5\n", b"bot");
    assert_eq!(fraction.crawl_delay(), 0);
    let word = RobotsRules::parse(b"User-agent: *\nCrawl-delay: soon\n", b"bot");
    assert_eq!(word.crawl_delay(), 0);
    let zero = RobotsRules::parse(b"User-agent: *\nCrawl-delay: 0\n", b"bot");
    assert_eq!(zero.crawl_delay(), 0);
    let day = RobotsRules::parse(b"User-agent: *\nCrawl-delay: 86400\n", b"bot");
    assert_eq!(day.crawl_delay(), 86_400_000);
    let huge =
        RobotsRules::parse(b"User-agent: *\nCrawl-delay: 99999999999999999999999999\n", b"bot");
    assert_eq!(huge.crawl_delay(), 86_400_000);
    let first = RobotsRules::parse(b"User-agent: *\nCrawl-delay: 4\nCrawl-delay: 9\n", b"bot");
    assert_eq!(first.crawl_delay(), 4000);
}

#[test]
fn the_query_counts_for_robots_rules() {
    let rules = RobotsRules::parse(b"User-agent: *\nDisallow: /search?q=\n", b"bot");
    assert!(!rules.allows(b"/search?q=x"));
    assert!(rules.allows(b"/search"));
}

#[test]
fn an_origin_is_claimed_once() {
    let mut cache = RobotsCache::new();
    let origin = Origin::new(Scheme::Https, b"example.com", 443);
    let other = Origin::new(Scheme::Http, b"example.com", 80);
    assert_eq!(cache.status(&origin), Status::Unknown);
    assert!(cache.claim(&origin));
    assert_eq!(cache.status(&origin), Status::Fetching);
    assert!(!cache.claim(&origin));
    assert_eq!(cache.status(&other), Status::Unknown);
    assert!(cache.claim(&other));
    assert!(!cache.claim(&origin));
    cache.settle(&origin, Some(b"User-agent: *\nDisallow: /no\nCrawl-delay: 5\n"), b"bot", 17);
    assert_eq!(cache.status(&origin), Status::Known);
    assert!(!cache.claim(&origin));
    assert_eq!(cache.status(&other), Status::Fetching);
}

#[test]
fn settled_rules_answer_and_never_change() {
    let mut cache = RobotsCache::new();
    let page = url(b"https://example.com/no/way?x");
    let open = url(b"https://example.com/yes");
    let origin = page.origin();
    assert_eq!(cache.permits(&page), None);
    assert_eq!(cache.delay_for(&origin), 0);
    cache.claim(&origin);
    assert_eq!(cache.permits(&page), None);
    cache.settle(&origin, Some(b"User-agent: *\nDisallow: /no\nCrawl-delay: 5\n"), b"bot", 17);
    assert_eq!(cache.permits(&page), Some(false));
    assert_eq!(cache.permits(&open), Some(true));
    assert_eq!(cache.delay_for(&origin), 5000);
    cache.settle(&origin, Some(b"User-agent: *\nDisallow: /\n"), b"bot", 18);
    cache.settle(&origin, None, b"bot", 19);
    assert_eq!(cache.permits(&page), Some(false));
    assert_eq!(cache.permits(&open), Some(true));
    assert_eq!(cache.delay_for(&origin), 5000);
    assert_eq!(cache.permits(&url(b"http://example.com/no")), None);
}

#[test]
fn a_failed_fetch_settles_allow_all() {
    let mut cache = RobotsCache::new();
    let page = url(b"https://example.com/anything");
    assert!(cache.claim(&page.origin()));
    cache.settle(&page.origin(), None, b"bot", 1);
    assert_eq!(cache.status(&page.origin()), Status::Known);
    assert_eq!(cache.permits(&page), Some(true));
    assert_eq!(cache.delay_for(&page.origin()), 0);
    assert!(!cache.claim(&page.origin()));
}

#[test]
fn settling_an_unclaimed_origin_makes_it_known() {
    let mut cache = RobotsCache::new();
    let page = url(b"https://example.com/x");
    cache.settle(&page.origin(), Some(b"User-agent: bot\nDisallow: /x\n"), b"bot", 1);
    assert_eq!(cache.status(&page.origin()), Status::Known);
    assert_eq!(cache.permits(&page), Some(false));
}

fn policy(respect_robots: bool) -> ScopePolicy {
    ScopePolicy {
        respect_robots,
        include_subdomains: false,
        match_tld_only: false,
        allowed_external_domains: Vec::new(),
        blocked_url_prefixes: Vec::new(),
        user_agent: b"bot/1".to_vec(),
        request_delay: 0,
        request_timeout: None,
    }
}

#[test]
fn a_policy_that_does_not_respect_robots_bypasses_them() {
    let mut cache = RobotsCache::new();
    let page = url(b"https://example.com/no/way");
    let origin = page.origin();
    assert!(cache.is_allowed(&page, &policy(true)));
    assert_eq!(cache.fetched_at(&origin), None);
    cache.claim(&origin);
    assert_eq!(cache.fetched_at(&origin), None);
    cache.settle(&origin, Some(b"User-agent: *\nDisallow: /no\nCrawl-delay: 5\n"), b"bot", 17);
    assert_eq!(cache.fetched_at(&origin), Some(17));
    assert!(!cache.is_allowed(&page, &policy(true)));
    assert!(cache.is_allowed(&page, &policy(false)));
    assert!(cache.is_allowed(&url(b"https://example.com/yes"), &policy(true)));
    assert_eq!(cache.advertised_delay(&origin, &policy(true)), 5000);
    assert_eq!(cache.advertised_delay(&origin, &policy(false)), 0);
    cache.settle(&origin, None, b"bot", 99);
    assert_eq!(cache.fetched_at(&origin), Some(17));
}
