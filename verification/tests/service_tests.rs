use crawl_engine::scope::accepts;
use crawl_engine::service::{bind_host, listen_address};
use crawl_engine::session::CrawlConfig;
use crawl_engine::url::Url;

#[test]
fn localhost_binds_to_the_loopback_address() {
    assert_eq!(bind_host(b"localhost"), b"127.0.0.1".to_vec());
    assert_eq!(bind_host(b"0.0.0.0"), b"0.0.0.0".to_vec());
    assert_eq!(bind_host(b"Localhost"), b"Localhost".to_vec());
    assert_eq!(bind_host(b"localhost.test"), b"localhost.test".to_vec());
    assert_eq!(bind_host(b""), b"".to_vec());
}

#[test]
fn the_listen_address_is_host_and_port() {
    assert_eq!(listen_address(b"localhost", 3030), b"127.0.0.1:3030".to_vec());
    assert_eq!(listen_address(b"10.1.2.3", 80), b"10.1.2.3:80".to_vec());
    assert_eq!(listen_address(b"h", 0), b"h:0".to_vec());
    assert_eq!(listen_address(b"h", 7), b"h:7".to_vec());
    assert_eq!(listen_address(b"h", 65535), b"h:65535".to_vec());
    assert_eq!(listen_address(b"h", 10000), b"h:10000".to_vec());
}

#[test]
fn port_digits_have_no_leading_zeros() {
    assert_eq!(Url::port_digits(0), b"0".to_vec());
    assert_eq!(Url::port_digits(9), b"9".to_vec());
    assert_eq!(Url::port_digits(10), b"10".to_vec());
    assert_eq!(Url::port_digits(443), b"443".to_vec());
    assert_eq!(Url::port_digits(60001), b"60001".to_vec());
}

#[test]
fn the_standard_configuration_is_the_documented_one() {
    let config = CrawlConfig::standard(b"crawler");
    assert!(config.policy.respect_robots);
    assert!(config.policy.include_subdomains);
    assert!(!config.policy.match_tld_only);
    assert_eq!(config.policy.request_delay, 0);
    assert_eq!(config.policy.request_timeout, None);
    assert_eq!(config.policy.user_agent, b"crawler/version".to_vec());
    assert_eq!(
        config.policy.blocked_url_prefixes,
        vec![b"https://choosealicense.com/licenses/".to_vec()]
    );
    assert_eq!(config.policy.allowed_external_domains.len(), 1);
    let allowed = &config.policy.allowed_external_domains[0];
    assert_eq!(allowed.host(), b"creativecommons.org");
    assert_eq!(allowed.port(), 443);
    assert_eq!(config.budget.len(), 2);
    assert_eq!(config.budget[0].pattern, b"*".to_vec());
    assert_eq!(config.budget[0].limit, 300);
    assert_eq!(config.budget[1].pattern, b"/licenses".to_vec());
    assert_eq!(config.budget[1].limit, 10);
    assert_eq!(config.workers, 4);
}

#[test]
fn the_standard_scope_takes_the_licence_and_leaves_the_chooser() {
    let config = CrawlConfig::standard(b"crawler");
    let seed = Url::parse(b"https://example.com").ok().unwrap().origin();
    let licence = Url::parse(b"https://creativecommons.org/licenses/by/3.0/").ok().unwrap();
    let chooser = Url::parse(b"https://choosealicense.com/licenses/mit/").ok().unwrap();
    let docs = Url::parse(b"https://docs.example.com/x").ok().unwrap();
    let other = Url::parse(b"https://other.org/x").ok().unwrap();
    assert!(accepts(&licence, &seed, &config.policy));
    assert!(!accepts(&chooser, &seed, &config.policy));
    assert!(accepts(&docs, &seed, &config.policy));
    assert!(!accepts(&other, &seed, &config.policy));
    let chooser_seed = Url::parse(b"https://choosealicense.com/").ok().unwrap().origin();
    assert!(!accepts(&chooser, &chooser_seed, &config.policy));
}
