use crawl_engine::scope::{accepts, ScopePolicy};
use crawl_engine::url::{Origin, Scheme, Url};

fn policy() -> ScopePolicy {
    ScopePolicy {
        respect_robots: true,
        include_subdomains: false,
        match_tld_only: false,
        allowed_external_domains: Vec::new(),
        blocked_url_prefixes: Vec::new(),
        user_agent: b"crawler/1.0".to_vec(),
        request_delay: 0,
        request_timeout: None,
    }
}

fn url(text: &[u8]) -> Url {
    Url::parse(text).ok().expect("a URL")
}

fn seed(text: &[u8]) -> Origin {
    url(text).origin()
}

#[test]
fn subdomains_are_accepted_and_other_domains_rejected() {
    let mut p = policy();
    p.include_subdomains = true;
    let s = seed(b"https://example.com");
    assert!(accepts(&url(b"https://docs.example.com/x"), &s, &p));
    assert!(!accepts(&url(b"https://other.org/x"), &s, &p));
}

#[test]
fn allow_listed_external_origin_is_accepted() {
    let mut p = policy();
    p.allowed_external_domains =
        vec![url(b"https://creativecommons.org/licenses/by/3.0/").origin()];
    let s = seed(b"https://example.com");
    assert!(accepts(&url(b"https://creativecommons.org/licenses/by/3.0/"), &s, &p));
    assert!(accepts(&url(b"https://creativecommons.org/about"), &s, &p));
    assert!(!accepts(&url(b"http://creativecommons.org/about"), &s, &p));
    assert!(!accepts(&url(b"https://creativecommons.org:8443/about"), &s, &p));
}

#[test]
fn blocked_prefix_rejects_even_in_scope() {
    let mut p = policy();
    p.blocked_url_prefixes = vec![b"https://example.com/private/".to_vec()];
    p.allowed_external_domains = vec![Origin::new(Scheme::Https, b"example.com", 443)];
    let s = seed(b"https://example.com");
    assert!(!accepts(&url(b"https://example.com/private/a"), &s, &p));
    assert!(!accepts(&url(b"https://example.com/private/"), &s, &p));
    assert!(accepts(&url(b"https://example.com/private"), &s, &p));
    assert!(accepts(&url(b"https://example.com/public/a"), &s, &p));
}

#[test]
fn blocked_prefix_is_matched_against_the_normal_form() {
    let mut p = policy();
    p.blocked_url_prefixes = vec![b"https://choosealicense.com/licenses/".to_vec()];
    let s = seed(b"https://choosealicense.com");
    assert!(!accepts(&url(b"HTTPS://ChooseALicense.com:443/x/../licenses/mit/"), &s, &p));
    assert!(accepts(&url(b"https://choosealicense.com/about/"), &s, &p));
}

#[test]
fn seed_host_is_accepted_without_subdomains() {
    let p = policy();
    let s = seed(b"https://example.com");
    assert!(accepts(&url(b"https://example.com/x"), &s, &p));
    assert!(accepts(&url(b"http://example.com:8080/x"), &s, &p));
    assert!(!accepts(&url(b"https://docs.example.com/x"), &s, &p));
}

#[test]
fn subdomains_count_from_the_registrable_domain() {
    let mut p = policy();
    p.include_subdomains = true;
    let s = seed(b"https://www.example.com");
    assert!(accepts(&url(b"https://docs.example.com/x"), &s, &p));
    assert!(accepts(&url(b"https://example.com/x"), &s, &p));
    assert!(accepts(&url(b"https://a.b.example.com/x"), &s, &p));
    assert!(!accepts(&url(b"https://notexample.com/x"), &s, &p));
    assert!(!accepts(&url(b"https://example.com.evil.org/x"), &s, &p));
}

#[test]
fn tld_only_ignores_the_last_label() {
    let mut p = policy();
    p.match_tld_only = true;
    let s = seed(b"https://example.com");
    assert!(accepts(&url(b"https://example.org/x"), &s, &p));
    assert!(!accepts(&url(b"https://docs.example.org/x"), &s, &p));
    assert!(!accepts(&url(b"https://other.com/x"), &s, &p));
    p.include_subdomains = true;
    assert!(accepts(&url(b"https://docs.example.org/x"), &s, &p));
    assert!(!accepts(&url(b"https://docs.other.org/x"), &s, &p));
}

#[test]
fn single_label_hosts_are_their_own_domain() {
    let mut p = policy();
    p.include_subdomains = true;
    let s = seed(b"http://localhost:3030");
    assert!(accepts(&url(b"http://localhost/x"), &s, &p));
    assert!(accepts(&url(b"http://api.localhost/x"), &s, &p));
    assert!(!accepts(&url(b"http://localhost.example/x"), &s, &p));
}
