//! The scope filter: which URLs a crawl that started at a given seed may
//! visit. A pure function of the URL, the seed's origin and the policy.

use crate::text::{
    append, ends_with, find_last, has_prefix, has_suffix, last_index_of, lemma_last_index_of, same,
    starts_with, DOT,
};
use crate::url::{Origin, OriginView, Url, UrlView};
use vstd::prelude::*;
use vstd::slice::slice_subrange;

verus! {

/// The settings of one crawl. Nothing changes them once the crawl runs.
pub struct ScopePolicy {
    /// Ask each origin's robots.txt before fetching from it.
    pub respect_robots: bool,
    /// Hosts below the seed's registrable domain are in scope.
    pub include_subdomains: bool,
    /// Hosts are compared without their top-level domain.
    pub match_tld_only: bool,
    /// Origins outside the seed's domain that are in scope all the same.
    pub allowed_external_domains: Vec<Origin>,
    /// No URL whose text starts with one of these is ever in scope.
    pub blocked_url_prefixes: Vec<Vec<u8>>,
    /// What the crawler calls itself, as `product/version`.
    pub user_agent: Vec<u8>,
    /// Least time between two requests to one origin, in milliseconds.
    pub request_delay: u64,
    /// How long a request may take, in milliseconds; `None` sets no limit.
    pub request_timeout: Option<u64>,
}

/// What a policy is.
pub struct PolicyView {
    pub respect_robots: bool,
    pub include_subdomains: bool,
    pub match_tld_only: bool,
    pub allowed_external_domains: Seq<OriginView>,
    pub blocked_url_prefixes: Seq<Seq<u8>>,
    pub user_agent: Seq<u8>,
    pub request_delay: u64,
    pub request_timeout: Option<u64>,
}

impl View for ScopePolicy {
    type V = PolicyView;

    open spec fn view(&self) -> PolicyView {
        PolicyView {
            respect_robots: self.respect_robots,
            include_subdomains: self.include_subdomains,
            match_tld_only: self.match_tld_only,
            allowed_external_domains: self.allowed_external_domains@.map_values(|o: Origin| o@),
            blocked_url_prefixes: self.blocked_url_prefixes@.map_values(|p: Vec<u8>| p@),
            user_agent: self.user_agent@,
            request_delay: self.request_delay,
            request_timeout: self.request_timeout,
        }
    }
}

/// The URL's text starts with one of the blocked prefixes.
pub open spec fn is_blocked(url: UrlView, blocked: Seq<Seq<u8>>) -> bool {
    exists|i: int| 0 <= i < blocked.len() && starts_with(url.text(), #[trigger] blocked[i])
}

/// The URL's origin is one of the allow-listed origins.
pub open spec fn is_allow_listed(url: UrlView, allowed: Seq<OriginView>) -> bool {
    exists|i: int| 0 <= i < allowed.len() && #[trigger] allowed[i] == url.origin()
}

/// `host` without its last label and the dot before it; a host of one label is kept.
pub open spec fn without_tld(host: Seq<u8>) -> Seq<u8> {
    let d = last_index_of(host, DOT);
    if d < 0 {
        host
    } else {
        host.subrange(0, d)
    }
}

/// The last two labels of `host`; a host of fewer labels is its own domain.
pub open spec fn registrable_domain(host: Seq<u8>) -> Seq<u8> {
    let d = last_index_of(host, DOT);
    if d < 0 {
        host
    } else {
        host.subrange(last_index_of(host.subrange(0, d), DOT) + 1, host.len() as int)
    }
}

/// `host` is `domain` or ends in `.domain`.
pub open spec fn is_subdomain_of(host: Seq<u8>, domain: Seq<u8>) -> bool {
    host == domain || ends_with(host, seq![DOT] + domain)
}

/// The part of a host that hosts are compared by.
pub open spec fn compared(host: Seq<u8>, tld_only: bool) -> Seq<u8> {
    if tld_only {
        without_tld(host)
    } else {
        host
    }
}

/// The URL is on the seed's own host.
pub open spec fn on_seed_host(url: UrlView, seed: OriginView, tld_only: bool) -> bool {
    compared(url.host, tld_only) == compared(seed.host, tld_only)
}

/// The URL's host lies in the seed's registrable domain.
pub open spec fn in_seed_domain(url: UrlView, seed: OriginView, tld_only: bool) -> bool {
    is_subdomain_of(compared(url.host, tld_only), compared(registrable_domain(seed.host), tld_only))
}

/// Whether the crawl seeded at `seed` may visit `url`. The first rule that
/// applies decides: a blocked prefix rejects; an allow-listed origin
/// accepts; the seed's host accepts; with subdomains included, a host in
/// the seed's registrable domain accepts; everything else is out of scope.
pub open spec fn in_scope(url: UrlView, seed: OriginView, policy: PolicyView) -> bool {
    if is_blocked(url, policy.blocked_url_prefixes) {
        false
    } else if is_allow_listed(url, policy.allowed_external_domains) {
        true
    } else if on_seed_host(url, seed, policy.match_tld_only) {
        true
    } else {
        policy.include_subdomains && in_seed_domain(url, seed, policy.match_tld_only)
    }
}

/// A URL under a blocked prefix is out of scope whatever else holds of it.
pub proof fn lemma_blocked_is_out_of_scope(url: UrlView, seed: OriginView, policy: PolicyView)
    requires
        is_blocked(url, policy.blocked_url_prefixes),
    ensures
        !in_scope(url, seed, policy),
{
}

/// An allow-listed origin is in scope on any host, unless a prefix blocks the URL.
pub proof fn lemma_allow_listed_is_in_scope(url: UrlView, seed: OriginView, policy: PolicyView)
    requires
        is_allow_listed(url, policy.allowed_external_domains),
        !is_blocked(url, policy.blocked_url_prefixes),
    ensures
        in_scope(url, seed, policy),
{
}

fn blocked(url: &Url, prefixes: &Vec<Vec<u8>>) -> (r: bool)
    ensures
        r == is_blocked(url@, prefixes@.map_values(|p: Vec<u8>| p@)),
{
    let ghost list = prefixes@.map_values(|p: Vec<u8>| p@);
    let text = url.to_bytes();
    let mut i: usize = 0;
    while i < prefixes.len()
        invariant
            i <= prefixes@.len(),
            text@ == url@.text(),
            list == prefixes@.map_values(|p: Vec<u8>| p@),
            forall|k: int| 0 <= k < i ==> !starts_with(text@, #[trigger] list[k]),
        decreases prefixes@.len() - i,
    {
        if has_prefix(text.as_slice(), prefixes[i].as_slice()) {
            assert(starts_with(text@, list[i as int]));
            return true;
        }
        i += 1;
    }
    false
}

fn allow_listed(url: &Url, allowed: &Vec<Origin>) -> (r: bool)
    ensures
        r == is_allow_listed(url@, allowed@.map_values(|o: Origin| o@)),
{
    let ghost list = allowed@.map_values(|o: Origin| o@);
    let origin = url.origin();
    let mut i: usize = 0;
    while i < allowed.len()
        invariant
            i <= allowed@.len(),
            origin@ == url@.origin(),
            list == allowed@.map_values(|o: Origin| o@),
            forall|k: int| 0 <= k < i ==> #[trigger] list[k] != origin@,
        decreases allowed@.len() - i,
    {
        if allowed[i].same(&origin) {
            assert(list[i as int] == url@.origin());
            return true;
        }
        i += 1;
    }
    false
}

fn compared_part(host: &[u8], tld_only: bool) -> (r: &[u8])
    ensures
        r@ == compared(host@, tld_only),
{
    if !tld_only {
        return host;
    }
    proof {
        lemma_last_index_of(host@, DOT);
    }
    match find_last(host, DOT) {
        Some(d) => slice_subrange(host, 0, d),
        None => host,
    }
}

fn registrable_part(host: &[u8]) -> (r: &[u8])
    ensures
        r@ == registrable_domain(host@),
{
    proof {
        lemma_last_index_of(host@, DOT);
    }
    match find_last(host, DOT) {
        None => host,
        Some(d) => {
            let head = slice_subrange(host, 0, d);
            proof {
                lemma_last_index_of(head@, DOT);
            }
            let len: usize = host.len();
            match find_last(head, DOT) {
                Some(e) => {
                    assert(e < len);
                    slice_subrange(host, e + 1, len)
                },
                None => {
                    assert(host@.subrange(0, host@.len() as int) == host@);
                    host
                },
            }
        },
    }
}

fn subdomain_of(host: &[u8], domain: &[u8]) -> (r: bool)
    ensures
        r == is_subdomain_of(host@, domain@),
{
    if same(host, domain) {
        return true;
    }
    let mut dotted: Vec<u8> = Vec::new();
    dotted.push(DOT);
    append(&mut dotted, domain);
    assert(dotted@ == seq![DOT] + domain@);
    has_suffix(host, dotted.as_slice())
}

/// The scope filter.
pub fn accepts(url: &Url, seed: &Origin, policy: &ScopePolicy) -> (r: bool)
    ensures
        r == in_scope(url@, seed@, policy@),
{
    if blocked(url, &policy.blocked_url_prefixes) {
        return false;
    }
    if allow_listed(url, &policy.allowed_external_domains) {
        return true;
    }
    let tld_only = policy.match_tld_only;
    let host = compared_part(url.host(), tld_only);
    if same(host, compared_part(seed.host(), tld_only)) {
        return true;
    }
    policy.include_subdomains && subdomain_of(
        host,
        compared_part(registrable_part(seed.host()), tld_only),
    )
}

} // verus!
