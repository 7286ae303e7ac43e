//! The robots cache: what is known of each origin's robots.txt. An origin
//! is claimed by the first caller that asks about it, who then fetches its
//! robots.txt; everyone who asks later finds the fetch under way or the
//! rules settled. What is settled stays as it is for the rest of the crawl.

use crate::robots::{parse_robots, RobotsRules, RulesView};
use crate::scope::{PolicyView, ScopePolicy};
use crate::url::{Origin, OriginView, Url, UrlView};
use vstd::prelude::*;

verus! {

/// What the cache holds of one origin.
pub enum EntryView {
    /// Its robots.txt is being fetched.
    Fetching,
    /// Its rules, and when they were settled.
    Known { rules: RulesView, fetched_at: u64 },
}

struct Entry {
    rules: Option<RobotsRules>,
    fetched_at: u64,
}

impl View for Entry {
    type V = EntryView;

    closed spec fn view(&self) -> EntryView {
        match self.rules {
            Some(rules) => EntryView::Known { rules: rules@, fetched_at: self.fetched_at },
            None => EntryView::Fetching,
        }
    }
}

/// What a caller learns of an origin.
#[derive(Clone, Copy, Debug, PartialEq, Eq, Structural)]
pub enum Status {
    Unknown,
    Fetching,
    Known,
}

/// What is known of the robots.txt of each origin.
pub struct RobotsCache {
    origins: Vec<Origin>,
    entries: Vec<Entry>,
}

/// The origins that were asked about, and what is known of each.
pub struct CacheView {
    pub origins: Seq<OriginView>,
    pub entries: Seq<EntryView>,
}

impl CacheView {
    /// The cache that knows nothing.
    pub open spec fn empty() -> CacheView {
        CacheView { origins: Seq::empty(), entries: Seq::empty() }
    }

    /// What every cache satisfies: one entry for each origin, no origin twice.
    pub open spec fn wf(self) -> bool {
        &&& self.entries.len() == self.origins.len()
        &&& forall|i: int, j: int|
            0 <= i < j < self.origins.len() ==> #[trigger] self.origins[i]
                != #[trigger] self.origins[j]
    }

    /// What the cache holds of `origin`, if it was ever asked about.
    pub open spec fn lookup(self, origin: OriginView) -> Option<EntryView> {
        if self.origins.contains(origin) {
            Some(self.entries[self.origins.index_of(origin)])
        } else {
            None
        }
    }

    /// What a caller learns of `origin`.
    pub open spec fn status(self, origin: OriginView) -> Status {
        match self.lookup(origin) {
            None => Status::Unknown,
            Some(EntryView::Fetching) => Status::Fetching,
            Some(EntryView::Known { .. }) => Status::Known,
        }
    }

    /// The rules that are settled for `origin`.
    pub open spec fn rules(self, origin: OriginView) -> Option<RulesView> {
        match self.lookup(origin) {
            Some(EntryView::Known { rules, .. }) => Some(rules),
            _ => None,
        }
    }

    /// An origin that nobody has asked about becomes the caller's to
    /// fetch; the answer is `true`. Any other origin is left as it is.
    pub open spec fn claim(self, origin: OriginView) -> (CacheView, bool) {
        if self.origins.contains(origin) {
            (self, false)
        } else {
            (
                CacheView {
                    origins: self.origins.push(origin),
                    entries: self.entries.push(EntryView::Fetching),
                },
                true,
            )
        }
    }

    /// The rules of `origin` are settled, unless they were settled before.
    pub open spec fn settle(self, origin: OriginView, rules: RulesView, now: u64) -> CacheView {
        let known = EntryView::Known { rules, fetched_at: now };
        match self.lookup(origin) {
            None => CacheView {
                origins: self.origins.push(origin),
                entries: self.entries.push(known),
            },
            Some(EntryView::Fetching) => CacheView {
                origins: self.origins,
                entries: self.entries.update(self.origins.index_of(origin), known),
            },
            Some(EntryView::Known { .. }) => self,
        }
    }

    /// Whether `url` may be fetched, where the rules of its origin are settled.
    pub open spec fn permits(self, url: UrlView) -> Option<bool> {
        match self.rules(url.origin()) {
            Some(rules) => Some(rules.permits(url.path + url.query)),
            None => None,
        }
    }

    /// The crawl delay that `origin` asks for; zero while nothing is settled.
    pub open spec fn delay_for(self, origin: OriginView) -> u64 {
        match self.rules(origin) {
            Some(rules) => rules.crawl_delay(),
            None => 0,
        }
    }

    /// When the rules of `origin` were settled.
    pub open spec fn fetched_at(self, origin: OriginView) -> Option<u64> {
        match self.lookup(origin) {
            Some(EntryView::Known { fetched_at, .. }) => Some(fetched_at),
            _ => None,
        }
    }

    /// Whether the robots policy lets `url` be fetched. A policy that
    /// does not respect robots lets everything be fetched; one that does
    /// holds back what settled rules deny.
    pub open spec fn is_allowed(self, url: UrlView, policy: PolicyView) -> bool {
        !policy.respect_robots || self.permits(url) != Some(false)
    }

    /// The crawl delay that the robots policy puts on `origin`: none
    /// under a policy that does not respect robots.
    pub open spec fn advertised_delay(self, origin: OriginView, policy: PolicyView) -> u64 {
        if policy.respect_robots {
            self.delay_for(origin)
        } else {
            0
        }
    }
}

/// What a fetch of a robots.txt settles: the rules read from the body, or
/// no rules at all where the fetch failed.
pub open spec fn fetched_rules(body: Option<Seq<u8>>, agent: Seq<u8>) -> RulesView {
    match body {
        Some(b) => parse_robots(b, agent),
        None => RulesView::none(),
    }
}

impl View for RobotsCache {
    type V = CacheView;

    closed spec fn view(&self) -> CacheView {
        CacheView {
            origins: self.origins@.map_values(|o: Origin| o@),
            entries: self.entries@.map_values(|e: Entry| e@),
        }
    }
}

/// Where an origin stands in a well-formed cache is the one place that holds it.
pub proof fn lemma_position(c: CacheView, origin: OriginView, k: int)
    requires
        c.wf(),
        0 <= k < c.origins.len(),
        c.origins[k] == origin,
    ensures
        c.origins.contains(origin),
        c.origins.index_of(origin) == k,
{
    let found = c.origins.index_of(origin);
    assert(c.origins[found] == origin);
    if found < k {
        assert(c.origins[found] != c.origins[k]);
    } else if k < found {
        assert(c.origins[k] != c.origins[found]);
    }
}

/// An origin is claimed at most once: after a claim, whoever claims it again is refused.
pub proof fn lemma_claimed_once(c: CacheView, origin: OriginView)
    requires
        c.wf(),
    ensures
        !c.claim(origin).0.claim(origin).1,
        c.claim(origin).0.status(origin) != Status::Unknown,
        c.claim(origin).0.wf(),
{
    let d = c.claim(origin).0;
    if d != c {
        assert(d.origins[c.origins.len() as int] == origin);
        lemma_position(d, origin, c.origins.len() as int);
    }
}

/// Whatever is claimed or settled afterwards, an origin that was asked
/// about is never unknown again, so it is never claimed again.
pub proof fn lemma_never_unknown_again(
    c: CacheView,
    origin: OriginView,
    other: OriginView,
    rules: RulesView,
    now: u64,
)
    requires
        c.wf(),
        c.status(origin) != Status::Unknown,
    ensures
        c.claim(other).0.status(origin) != Status::Unknown,
        c.settle(other, rules, now).status(origin) != Status::Unknown,
        !c.claim(other).0.claim(origin).1,
        !c.settle(other, rules, now).claim(origin).1,
{
    let k = c.origins.index_of(origin);
    assert(c.origins[k] == origin);
    let d = c.claim(other).0;
    assert(d.origins[k] == origin);
    let e = c.settle(other, rules, now);
    assert(e.origins[k] == origin);
}

/// Rules, once settled, stay: neither a claim nor a later settlement changes them.
pub proof fn lemma_settled_stays(
    c: CacheView,
    origin: OriginView,
    other: OriginView,
    rules: RulesView,
    now: u64,
)
    requires
        c.wf(),
        c.status(origin) == Status::Known,
    ensures
        c.claim(other).0.lookup(origin) == c.lookup(origin),
        c.settle(other, rules, now).lookup(origin) == c.lookup(origin),
{
    let k = c.origins.index_of(origin);
    assert(c.origins[k] == origin);
    lemma_position(c, origin, k);
    let d = c.claim(other).0;
    lemma_claim_keeps_wf(c, other);
    assert(d.origins[k] == origin);
    lemma_position(d, origin, k);
    let e = c.settle(other, rules, now);
    lemma_settle_keeps_wf(c, other, rules, now);
    assert(e.origins[k] == origin);
    lemma_position(e, origin, k);
    if c.origins.contains(other) {
        let m = c.origins.index_of(other);
        assert(c.origins[m] == other);
    }
}

/// A claim leaves a cache in order.
pub proof fn lemma_claim_keeps_wf(c: CacheView, origin: OriginView)
    requires
        c.wf(),
    ensures
        c.claim(origin).0.wf(),
{
}

/// Settling rules leaves a cache in order.
pub proof fn lemma_settle_keeps_wf(c: CacheView, origin: OriginView, rules: RulesView, now: u64)
    requires
        c.wf(),
    ensures
        c.settle(origin, rules, now).wf(),
{
    if c.origins.contains(origin) {
        let k = c.origins.index_of(origin);
        assert(c.origins[k] == origin);
    }
}

impl RobotsCache {
    /// A cache that knows nothing.
    pub fn new() -> (c: RobotsCache)
        ensures
            c@ == CacheView::empty(),
            c@.wf(),
    {
        let c = RobotsCache { origins: Vec::new(), entries: Vec::new() };
        assert(c@.origins =~= Seq::empty());
        assert(c@.entries =~= Seq::empty());
        c
    }

    fn position(&self, origin: &Origin) -> (r: Option<usize>)
        requires
            self@.wf(),
        ensures
            match r {
                Some(k) => k < self@.origins.len() && self@.origins[k as int] == origin@
                    && self@.origins.contains(origin@) && self@.origins.index_of(origin@) == k,
                None => !self@.origins.contains(origin@),
            },
    {
        let mut k: usize = 0;
        while k < self.origins.len()
            invariant
                self@.wf(),
                k <= self.origins@.len(),
                forall|m: int| 0 <= m < k ==> self@.origins[m] != origin@,
            decreases self.origins@.len() - k,
        {
            if self.origins[k].same(origin) {
                proof {
                    lemma_position(self@, origin@, k as int);
                }
                return Some(k);
            }
            k += 1;
        }
        None
    }

    /// What is known of `origin`.
    pub fn status(&self, origin: &Origin) -> (s: Status)
        requires
            self@.wf(),
        ensures
            s == self@.status(origin@),
    {
        match self.position(origin) {
            None => Status::Unknown,
            Some(k) => {
                assert(self.entries@[k as int]@ == self@.entries[k as int]);
                if self.entries[k].rules.is_some() {
                    Status::Known
                } else {
                    Status::Fetching
                }
            },
        }
    }

    /// Asks to be the one who fetches the robots.txt of `origin`.
    pub fn claim(&mut self, origin: &Origin) -> (granted: bool)
        requires
            old(self)@.wf(),
        ensures
            (final(self)@, granted) == old(self)@.claim(origin@),
            final(self)@.wf(),
    {
        if self.position(origin).is_some() {
            return false;
        }
        let ghost before = self@;
        self.origins.push(origin.clone());
        self.entries.push(Entry { rules: None, fetched_at: 0 });
        proof {
            assert(self@.origins =~= before.origins.push(origin@));
            assert(self@.entries =~= before.entries.push(EntryView::Fetching));
        }
        true
    }

    /// Settles the rules of `origin` with what a fetch of its robots.txt
    /// brought: its body, or `None` where the fetch failed. `agent` is
    /// the crawler's product token in lower case, `now` the time in
    /// milliseconds.
    pub fn settle(&mut self, origin: &Origin, body: Option<&[u8]>, agent: &[u8], now: u64)
        requires
            old(self)@.wf(),
        ensures
            final(self)@ == old(self)@.settle(
                origin@,
                fetched_rules(
                    match body {
                        Some(b) => Some(b@),
                        None => None,
                    },
                    agent@,
                ),
                now,
            ),
            final(self)@.wf(),
    {
        let ghost before = self@;
        let ghost settled = fetched_rules(
            match body {
                Some(b) => Some(b@),
                None => None,
            },
            agent@,
        );
        proof {
            lemma_settle_keeps_wf(before, origin@, settled, now);
        }
        match self.position(origin) {
            Some(k) => {
                assert(self.entries@[k as int]@ == self@.entries[k as int]);
                if self.entries[k].rules.is_none() {
                    let rules = match body {
                        Some(b) => RobotsRules::parse(b, agent),
                        None => RobotsRules::allow_all(),
                    };
                    self.entries.set(k, Entry { rules: Some(rules), fetched_at: now });
                    proof {
                        assert(self@.origins == before.origins);
                        assert(self@.entries =~= before.entries.update(
                            k as int,
                            EntryView::Known { rules: settled, fetched_at: now },
                        ));
                    }
                }
            },
            None => {
                let rules = match body {
                    Some(b) => RobotsRules::parse(b, agent),
                    None => RobotsRules::allow_all(),
                };
                self.origins.push(origin.clone());
                self.entries.push(Entry { rules: Some(rules), fetched_at: now });
                proof {
                    assert(self@.origins =~= before.origins.push(origin@));
                    assert(self@.entries =~= before.entries.push(
                        EntryView::Known { rules: settled, fetched_at: now },
                    ));
                }
            },
        }
    }

    /// Whether `url` may be fetched; `None` while the rules of its origin are not settled.
    pub fn permits(&self, url: &Url) -> (r: Option<bool>)
        requires
            self@.wf(),
        ensures
            r == self@.permits(url@),
    {
        let origin = url.origin();
        match self.position(&origin) {
            None => None,
            Some(k) => {
                assert(self.entries@[k as int]@ == self@.entries[k as int]);
                match &self.entries[k].rules {
                    Some(rules) => {
                        let target = url.target();
                        Some(rules.allows(target.as_slice()))
                    },
                    None => None,
                }
            },
        }
    }

    /// When the rules of `origin` were settled, in milliseconds.
    pub fn fetched_at(&self, origin: &Origin) -> (t: Option<u64>)
        requires
            self@.wf(),
        ensures
            t == self@.fetched_at(origin@),
    {
        match self.position(origin) {
            None => None,
            Some(k) => {
                assert(self.entries@[k as int]@ == self@.entries[k as int]);
                match &self.entries[k].rules {
                    Some(_) => Some(self.entries[k].fetched_at),
                    None => None,
                }
            },
        }
    }

    /// Whether the robots policy lets `url` be fetched.
    pub fn is_allowed(&self, url: &Url, policy: &ScopePolicy) -> (r: bool)
        requires
            self@.wf(),
        ensures
            r == self@.is_allowed(url@, policy@),
    {
        if !policy.respect_robots {
            return true;
        }
        match self.permits(url) {
            Some(allowed) => allowed,
            None => true,
        }
    }

    /// The crawl delay that the robots policy puts on `origin`, in milliseconds.
    pub fn advertised_delay(&self, origin: &Origin, policy: &ScopePolicy) -> (d: u64)
        requires
            self@.wf(),
        ensures
            d == self@.advertised_delay(origin@, policy@),
    {
        if policy.respect_robots {
            self.delay_for(origin)
        } else {
            0
        }
    }

    /// The crawl delay that `origin` asks for, in milliseconds.
    pub fn delay_for(&self, origin: &Origin) -> (d: u64)
        requires
            self@.wf(),
        ensures
            d == self@.delay_for(origin@),
    {
        match self.position(origin) {
            None => 0,
            Some(k) => {
                assert(self.entries@[k as int]@ == self@.entries[k as int]);
                match &self.entries[k].rules {
                    Some(rules) => rules.crawl_delay(),
                    None => 0,
                }
            },
        }
    }
}

} // verus!
