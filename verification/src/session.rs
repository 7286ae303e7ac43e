//! The crawl session: one crawl from one seed. The session owns the
//! frontier, the budget, the robots cache, the pacing and the result, and
//! decides. It performs no request itself: `next_action` says what to do
//! next, and `on_robots` and `on_page` take in what a request brought. Any
//! number of workers may drive one session, each call under one lock.

use crate::budget::{BudgetTracker, BudgetView, Limit, LimitView, initial_budget};
use crate::cache::{fetched_rules, CacheView, RobotsCache, Status};
use crate::extract::{extract_links, links};
use crate::frontier::{EntryView, Frontier, FrontierEntry, FrontierView, Taken};
use crate::outcome::{CrawlResult, FetchError, Outcome, ResultView, SkipReason};
use crate::pacing::{Pacing, PacingView};
use crate::robots::{product_token, token_of};
use crate::scope::{accepts, in_scope, PolicyView, ScopePolicy};
use crate::text::{append, ascii, copy, literal};
use crate::url::{parse_url, resolve, Origin, OriginView, Url, UrlError, UrlView};
use vstd::prelude::*;

verus! {

/// What a crawl is run with.
pub struct CrawlConfig {
    pub policy: ScopePolicy,
    /// The caps on the number of pages under each path pattern.
    pub budget: Vec<Limit>,
    /// How many workers fetch at the same time.
    pub workers: usize,
}

/// What a configuration is.
pub struct ConfigView {
    pub policy: PolicyView,
    pub budget: Seq<LimitView>,
    pub workers: usize,
}

impl View for CrawlConfig {
    type V = ConfigView;

    open spec fn view(&self) -> ConfigView {
        ConfigView {
            policy: self.policy@,
            budget: self.budget@.map_values(|l: Limit| l@),
            workers: self.workers,
        }
    }
}

/// The configuration that a crawl runs with where nothing else is asked
/// for. Robots are respected and subdomains included; hosts are compared
/// whole; nothing delays or times out a request. The crawler calls itself
/// `product/version`. At most 300 pages are fetched in all, at most 10 under
/// `/licenses`. The origin of the Creative Commons licence is in scope, and
/// nothing under the licence chooser's list of licences is. Four workers
/// fetch at the same time.
pub open spec fn standard_config(product: Seq<u8>) -> ConfigView {
    ConfigView {
        policy: PolicyView {
            respect_robots: true,
            include_subdomains: true,
            match_tld_only: false,
            allowed_external_domains: match parse_url(
                ascii("https://creativecommons.org/licenses/by/3.0/"@),
            ) {
                Ok(url) => seq![url.origin()],
                Err(_) => Seq::empty(),
            },
            blocked_url_prefixes: seq![ascii("https://choosealicense.com/licenses/"@)],
            user_agent: product + ascii("/version"@),
            request_delay: 0,
            request_timeout: None,
        },
        budget: seq![
            LimitView { pattern: ascii("*"@), limit: 300 },
            LimitView { pattern: ascii("/licenses"@), limit: 10 },
        ],
        workers: 4,
    }
}

impl CrawlConfig {
    /// The standard configuration for the crawler named `product`.
    pub fn standard(product: &[u8]) -> (config: CrawlConfig)
        ensures
            config@ == standard_config(product@),
    {
        proof {
            reveal_strlit("https://creativecommons.org/licenses/by/3.0/");
            reveal_strlit("https://choosealicense.com/licenses/");
            reveal_strlit("/version");
            reveal_strlit("*");
            reveal_strlit("/licenses");
        }
        let mut allowed: Vec<Origin> = Vec::new();
        match Url::parse(literal("https://creativecommons.org/licenses/by/3.0/")) {
            Ok(url) => {
                allowed.push(url.origin());
            },
            Err(_) => {},
        }
        let mut blocked: Vec<Vec<u8>> = Vec::new();
        blocked.push(copy(literal("https://choosealicense.com/licenses/")));
        let mut user_agent = copy(product);
        append(&mut user_agent, literal("/version"));
        let mut budget: Vec<Limit> = Vec::new();
        budget.push(Limit { pattern: copy(literal("*")), limit: 300 });
        budget.push(Limit { pattern: copy(literal("/licenses")), limit: 10 });
        let config = CrawlConfig {
            policy: ScopePolicy {
                respect_robots: true,
                include_subdomains: true,
                match_tld_only: false,
                allowed_external_domains: allowed,
                blocked_url_prefixes: blocked,
                user_agent,
                request_delay: 0,
                request_timeout: None,
            },
            budget,
            workers: 4,
        };
        proof {
            let want = standard_config(product@);
            assert(config@.policy.allowed_external_domains
                =~= want.policy.allowed_external_domains);
            assert(config@.policy.blocked_url_prefixes =~= want.policy.blocked_url_prefixes);
            assert(config@.budget =~= want.budget);
        }
        config
    }
}

/// What the session asks its driver to do.
pub enum Action {
    /// Fetch the robots.txt of `origin` at `url`, and report with `on_robots`.
    FetchRobots { origin: Origin, url: Url },
    /// Fetch `url`, at `not_before` or later, and report with `on_page`.
    Fetch { url: Url, not_before: u64 },
    /// Nothing can be done before a fetch under way is reported.
    Wait,
    /// The crawl is over.
    Done,
}

/// What an action is.
pub enum ActionView {
    FetchRobots { origin: OriginView, url: UrlView },
    Fetch { url: UrlView, not_before: u64 },
    Wait,
    Done,
}

impl View for Action {
    type V = ActionView;

    open spec fn view(&self) -> ActionView {
        match self {
            Action::FetchRobots { origin, url } => ActionView::FetchRobots {
                origin: origin@,
                url: url@,
            },
            Action::Fetch { url, not_before } => ActionView::Fetch {
                url: url@,
                not_before: *not_before,
            },
            Action::Wait => ActionView::Wait,
            Action::Done => ActionView::Done,
        }
    }
}

/// What a fetch of a page brought.
pub enum Fetched {
    Page(Vec<u8>),
    Failed(FetchError),
}

/// What a fetch brought.
pub enum FetchedView {
    Page(Seq<u8>),
    Failed(FetchError),
}

impl View for Fetched {
    type V = FetchedView;

    open spec fn view(&self) -> FetchedView {
        match self {
            Fetched::Page(body) => FetchedView::Page(body@),
            Fetched::Failed(e) => FetchedView::Failed(*e),
        }
    }
}

/// One crawl, from its seed to its result.
pub struct CrawlSession {
    seed: Origin,
    policy: ScopePolicy,
    agent: Vec<u8>,
    frontier: Frontier,
    budget: BudgetTracker,
    robots: RobotsCache,
    pacing: Pacing,
    under_way: Vec<FrontierEntry>,
    result: CrawlResult,
}

/// What a session is.
pub struct SessionView {
    pub seed: OriginView,
    pub policy: PolicyView,
    /// The crawler's product token.
    pub agent: Seq<u8>,
    pub frontier: FrontierView,
    pub budget: BudgetView,
    pub robots: CacheView,
    pub pacing: PacingView,
    /// The URLs handed out for a fetch that has not been reported.
    pub under_way: Seq<EntryView>,
    pub result: ResultView,
}

/// Index of the first entry for `url`, or the number of entries where there is none.
pub open spec fn first_for(entries: Seq<EntryView>, url: UrlView) -> int
    decreases entries.len(),
{
    if entries.len() == 0 || entries[0].url == url {
        0
    } else {
        1 + first_for(entries.subrange(1, entries.len() as int), url)
    }
}

/// One step further from the seed.
pub open spec fn deeper(depth: u32) -> u32 {
    if depth < u32::MAX {
        (depth + 1) as u32
    } else {
        depth
    }
}

impl SessionView {
    /// What every session satisfies. Beside the order of its parts: the
    /// fetches under way are those the frontier counts, and every URL
    /// that waits is in scope.
    pub open spec fn wf(self) -> bool {
        &&& self.sound()
        &&& self.under_way.len() == self.frontier.in_flight
    }

    /// The order of a session's parts, whatever is under way.
    pub open spec fn sound(self) -> bool {
        &&& self.frontier.wf()
        &&& self.budget.wf()
        &&& self.robots.wf()
        &&& self.pacing.wf()
        &&& self.result.wf()
        &&& forall|k: int|
            0 <= k < self.frontier.queue.len() ==> in_scope(
                (#[trigger] self.frontier.queue[k]).url,
                self.seed,
                self.policy,
            )
        &&& self.agent == product_token(self.policy.user_agent)
    }

    /// The session with another frontier.
    pub open spec fn with_frontier(self, frontier: FrontierView) -> SessionView {
        SessionView { frontier, ..self }
    }

    /// The session with another result.
    pub open spec fn with_result(self, result: ResultView) -> SessionView {
        SessionView { result, ..self }
    }

    /// Robots rules deny `url`. Rules that are not settled deny nothing.
    pub open spec fn robots_deny(self, url: UrlView) -> bool {
        !self.robots.is_allowed(url, self.policy)
    }

    /// The least time between two requests to `origin`: the configured
    /// delay, or the one that the origin asks for if that is longer.
    pub open spec fn delay(self, origin: OriginView) -> u64 {
        let asked = self.robots.advertised_delay(origin, self.policy);
        if asked > self.policy.request_delay {
            asked
        } else {
            self.policy.request_delay
        }
    }

    /// A URL that was taken is not fetched after all.
    pub open spec fn skip(self, url: UrlView, reason: SkipReason) -> SessionView {
        SessionView {
            frontier: self.frontier.finish(),
            result: self.result.record(url, Outcome::Skipped(reason)),
            ..self
        }
    }

    /// A URL that is found and not wanted is seen from now on; where it is new, it gets its outcome.
    pub open spec fn turn_away(self, url: UrlView, reason: SkipReason) -> SessionView {
        if self.frontier.closed || self.frontier.seen.contains(url) {
            self
        } else {
            SessionView {
                frontier: self.frontier.note(url),
                result: self.result.record(url, Outcome::Skipped(reason)),
                ..self
            }
        }
    }

    /// A URL comes to the session's notice: out of scope or denied by
    /// settled robots rules, it is turned away; otherwise it is offered
    /// to the frontier.
    pub open spec fn consider(self, entry: EntryView) -> SessionView {
        if !in_scope(entry.url, self.seed, self.policy) {
            self.turn_away(entry.url, SkipReason::OutOfScope)
        } else if self.robots_deny(entry.url) {
            self.turn_away(entry.url, SkipReason::RobotsDenied)
        } else {
            self.with_frontier(self.frontier.offer(entry))
        }
    }

    /// A link found on the page `parent`: one that names no URL is passed over.
    pub open spec fn discover(self, link: Seq<u8>, parent: EntryView) -> SessionView {
        match resolve(parent.url, link) {
            Err(_) => self,
            Ok(url) => self.consider(
                EntryView { url, depth: deeper(parent.depth), parent: Some(parent.url) },
            ),
        }
    }

    /// The first `n` of the links found on the page `parent`, one after the other.
    pub open spec fn discover_all(self, found: Seq<Seq<u8>>, parent: EntryView, n: int) -> SessionView
        decreases n,
    {
        if n <= 0 {
            self
        } else {
            self.discover_all(found, parent, n - 1).discover(found[n - 1], parent)
        }
    }

    /// What to do next, and the state that doing it leaves. A closed
    /// frontier ends the crawl. With nothing waiting the crawl ends if
    /// nothing is under way, and waits otherwise. The URL that waits
    /// longest needs its origin's robots rules first, where robots are
    /// respected: unknown, they are fetched; being fetched, they are
    /// waited for. Then the URL is taken. Out of scope, denied by robots
    /// or over budget it is skipped, and the next one is looked at. Else
    /// it is counted against the budget, given a time to start by its
    /// origin's pacing, and handed out.
    pub open spec fn next_action(self, now: u64) -> (SessionView, ActionView)
        decreases self.frontier.queue.len(),
    {
        if self.frontier.closed {
            (self, ActionView::Done)
        } else if self.frontier.queue.len() == 0 {
            if self.frontier.in_flight == 0 {
                (self.with_frontier(self.frontier.close()), ActionView::Done)
            } else {
                (self, ActionView::Wait)
            }
        } else {
            let head = self.frontier.queue[0];
            let origin = head.url.origin();
            let status = self.robots.status(origin);
            if self.policy.respect_robots && status == Status::Unknown {
                (
                    SessionView { robots: self.robots.claim(origin).0, ..self },
                    ActionView::FetchRobots { origin, url: head.url.robots_url() },
                )
            } else if self.policy.respect_robots && status == Status::Fetching {
                (self, ActionView::Wait)
            } else {
                let taken = self.with_frontier(self.frontier.take().0);
                if !in_scope(head.url, self.seed, self.policy) {
                    taken.skip(head.url, SkipReason::OutOfScope).next_action(now)
                } else if taken.robots_deny(head.url) {
                    taken.skip(head.url, SkipReason::RobotsDenied).next_action(now)
                } else if !taken.budget.consume(head.url).1 {
                    taken.skip(head.url, SkipReason::BudgetExhausted).next_action(now)
                } else {
                    let paced = taken.pacing.reserve(origin, now, taken.delay(origin));
                    (
                        SessionView {
                            budget: taken.budget.consume(head.url).0,
                            pacing: paced.0,
                            under_way: taken.under_way.push(head),
                            ..taken
                        },
                        ActionView::Fetch { url: head.url, not_before: paced.1 },
                    )
                }
            }
        }
    }

    /// The rules of `origin` are settled with what the fetch of its robots.txt brought.
    pub open spec fn on_robots(self, origin: OriginView, body: Option<Seq<u8>>, now: u64) -> SessionView {
        SessionView {
            robots: self.robots.settle(origin, fetched_rules(body, self.agent), now),
            ..self
        }
    }

    /// The fetch of `url` is reported. A URL that is not under way
    /// changes nothing. A failure is recorded. A page has its links
    /// discovered, in their order, and is recorded as visited with their
    /// number. Either way the URL is finished.
    pub open spec fn on_page(self, url: UrlView, fetched: FetchedView) -> SessionView {
        let k = first_for(self.under_way, url);
        if k >= self.under_way.len() {
            self
        } else {
            let entry = self.under_way[k];
            let rest = SessionView { under_way: self.under_way.remove(k), ..self };
            let done = match fetched {
                FetchedView::Failed(e) => rest.with_result(
                    rest.result.record(url, Outcome::Failed(e)),
                ),
                FetchedView::Page(body) => {
                    let found = links(body);
                    let grown = rest.discover_all(found, entry, found.len() as int);
                    grown.with_result(
                        grown.result.record(url, Outcome::Visited { links: found.len() as usize }),
                    )
                },
            };
            done.with_frontier(done.frontier.finish())
        }
    }

    /// The crawl is called off: nothing more is handed out.
    pub open spec fn cancel(self) -> SessionView {
        self.with_frontier(self.frontier.close())
    }
}

/// The session that a crawl from `seed` starts with.
pub open spec fn initial_session(seed: UrlView, config: ConfigView) -> SessionView {
    SessionView {
        seed: seed.origin(),
        policy: config.policy,
        agent: product_token(config.policy.user_agent),
        frontier: FrontierView::empty(),
        budget: initial_budget(config.budget),
        robots: CacheView::empty(),
        pacing: PacingView::empty(),
        under_way: Seq::empty(),
        result: ResultView::empty(),
    }.consider(EntryView { url: seed, depth: 0, parent: None })
}

impl View for CrawlSession {
    type V = SessionView;

    closed spec fn view(&self) -> SessionView {
        SessionView {
            seed: self.seed@,
            policy: self.policy@,
            agent: self.agent@,
            frontier: self.frontier@,
            budget: self.budget@,
            robots: self.robots@,
            pacing: self.pacing@,
            under_way: self.under_way@.map_values(|e: FrontierEntry| e@),
            result: self.result@,
        }
    }
}

/// The first entry for a URL lies within the entries, is for that URL, and has none for it before it.
pub proof fn lemma_first_for(entries: Seq<EntryView>, url: UrlView)
    ensures
        0 <= first_for(entries, url) <= entries.len(),
        first_for(entries, url) < entries.len() ==> entries[first_for(entries, url)].url == url,
        forall|i: int| 0 <= i < first_for(entries, url) ==> (#[trigger] entries[i]).url != url,
    decreases entries.len(),
{
    if entries.len() > 0 && entries[0].url != url {
        let rest = entries.subrange(1, entries.len() as int);
        lemma_first_for(rest, url);
        assert forall|i: int| 0 <= i < first_for(entries, url) implies (#[trigger] entries[i]).url
            != url by {
            if i > 0 {
                assert(entries[i] == rest[i - 1]);
            }
        }
    }
}

/// The first entry for a URL is the only one for it with none for it before it.
pub proof fn lemma_first_for_unique(entries: Seq<EntryView>, url: UrlView, k: int)
    requires
        0 <= k <= entries.len(),
        k < entries.len() ==> entries[k].url == url,
        forall|i: int| 0 <= i < k ==> (#[trigger] entries[i]).url != url,
    ensures
        first_for(entries, url) == k,
{
    lemma_first_for(entries, url);
    let j = first_for(entries, url);
    if j < k {
        assert(entries[j].url != url);
    }
}

/// Turning a URL away leaves a session in order and touches neither what waits, what is under way, nor what was visited.
pub proof fn lemma_turn_away_keeps_sound(s: SessionView, url: UrlView, reason: SkipReason)
    requires
        s.sound(),
    ensures
        s.turn_away(url, reason).sound(),
        s.turn_away(url, reason).frontier.queue == s.frontier.queue,
        s.turn_away(url, reason).frontier.in_flight == s.frontier.in_flight,
        s.turn_away(url, reason).frontier.closed == s.frontier.closed,
        s.turn_away(url, reason).under_way == s.under_way,
        s.turn_away(url, reason).result.visited == s.result.visited,
{
    crate::frontier::lemma_note_keeps_wf(s.frontier, url);
    crate::outcome::lemma_record(s.result, url, Outcome::Skipped(reason));
}

/// Taking notice of a URL leaves a session in order and touches neither what is under way nor what was visited.
pub proof fn lemma_consider_keeps_sound(s: SessionView, entry: EntryView)
    requires
        s.sound(),
    ensures
        s.consider(entry).sound(),
        s.consider(entry).frontier.in_flight == s.frontier.in_flight,
        s.consider(entry).frontier.closed == s.frontier.closed,
        s.consider(entry).under_way == s.under_way,
        s.consider(entry).result.visited == s.result.visited,
{
    let t = s.consider(entry);
    if !in_scope(entry.url, s.seed, s.policy) {
        lemma_turn_away_keeps_sound(s, entry.url, SkipReason::OutOfScope);
    } else if s.robots_deny(entry.url) {
        lemma_turn_away_keeps_sound(s, entry.url, SkipReason::RobotsDenied);
    } else {
        crate::frontier::lemma_offer_keeps_wf(s.frontier, entry);
        assert forall|k: int| 0 <= k < t.frontier.queue.len() implies in_scope(
            (#[trigger] t.frontier.queue[k]).url,
            t.seed,
            t.policy,
        ) by {
            if k < s.frontier.queue.len() {
                assert(t.frontier.queue[k] == s.frontier.queue[k]);
            }
        }
    }
}

/// Discovering links leaves a session in order and touches neither what
/// is under way nor what was visited.
pub proof fn lemma_discover_all_keeps_sound(
    s: SessionView,
    found: Seq<Seq<u8>>,
    parent: EntryView,
    n: int,
)
    requires
        s.sound(),
    ensures
        s.discover_all(found, parent, n).sound(),
        s.discover_all(found, parent, n).under_way == s.under_way,
        s.discover_all(found, parent, n).frontier.in_flight == s.frontier.in_flight,
        s.discover_all(found, parent, n).frontier.closed == s.frontier.closed,
        s.discover_all(found, parent, n).result.visited == s.result.visited,
    decreases n,
{
    if n > 0 {
        lemma_discover_all_keeps_sound(s, found, parent, n - 1);
        let before = s.discover_all(found, parent, n - 1);
        match resolve(parent.url, found[n - 1]) {
            Err(_) => {},
            Ok(url) => {
                lemma_consider_keeps_sound(
                    before,
                    EntryView { url, depth: deeper(parent.depth), parent: Some(parent.url) },
                );
            },
        }
    }
}

/// A skip leaves a session in order, with one URL less waiting.
pub proof fn lemma_skip_keeps_wf(s: SessionView, taken: SessionView, reason: SkipReason)
    requires
        s.wf(),
        !s.frontier.closed,
        s.frontier.queue.len() > 0,
        taken == s.with_frontier(s.frontier.take().0),
    ensures
        taken.skip(s.frontier.queue[0].url, reason).wf(),
        taken.skip(s.frontier.queue[0].url, reason).frontier.queue.len() == s.frontier.queue.len()
            - 1,
        taken.skip(s.frontier.queue[0].url, reason).result.visited == s.result.visited,
{
    let head = s.frontier.queue[0];
    let after = taken.skip(head.url, reason);
    crate::frontier::lemma_take_keeps_wf(s.frontier);
    crate::outcome::lemma_record(s.result, head.url, Outcome::Skipped(reason));
    assert forall|k: int| 0 <= k < after.frontier.queue.len() implies in_scope(
        (#[trigger] after.frontier.queue[k]).url,
        after.seed,
        after.policy,
    ) by {
        assert(after.frontier.queue[k] == s.frontier.queue[k + 1]);
    }
}

/// Whatever `next_action` decides, it leaves the session in order, under
/// the same seed and policy, and the visited URLs as they were. A URL that
/// it hands out for a fetch is in scope, so under no blocked prefix, is not
/// denied by robots rules, starts no earlier than asked, and is under way
/// from then on. A robots.txt is asked for only under a policy that
/// respects robots and only of an origin that was unknown, which from then
/// on counts as being fetched. `Done` is answered only by a closed session,
/// and a closed session is left untouched and answers `Done`.
pub proof fn lemma_next_action(s: SessionView, now: u64)
    requires
        s.wf(),
    ensures
        s.next_action(now).0.wf(),
        s.next_action(now).0.result.visited == s.result.visited,
        s.next_action(now).0.seed == s.seed,
        s.next_action(now).0.policy == s.policy,
        s.next_action(now).1 matches ActionView::Fetch { url, not_before } ==> {
            &&& in_scope(url, s.seed, s.policy)
            &&& !crate::scope::is_blocked(url, s.policy.blocked_url_prefixes)
            &&& !s.robots_deny(url)
            &&& not_before >= now
            &&& s.next_action(now).0.under_way.len() > 0
            &&& s.next_action(now).0.under_way.last().url == url
        },
        s.next_action(now).1 matches ActionView::FetchRobots { origin, url } ==> {
            &&& s.policy.respect_robots
            &&& s.robots.status(origin) == Status::Unknown
            &&& s.next_action(now).0.robots.status(origin) == Status::Fetching
        },
        s.next_action(now).1 is Done ==> s.next_action(now).0.frontier.closed,
        s.frontier.closed ==> s.next_action(now) == (s, ActionView::Done),
    decreases s.frontier.queue.len(),
{
    if !s.frontier.closed && s.frontier.queue.len() > 0 {
        let head = s.frontier.queue[0];
        let origin = head.url.origin();
        let status = s.robots.status(origin);
        if s.policy.respect_robots && status == Status::Unknown {
            crate::cache::lemma_claimed_once(s.robots, origin);
            let after = s.robots.claim(origin).0;
            assert(after.origins[s.robots.origins.len() as int] == origin);
            crate::cache::lemma_position(after, origin, s.robots.origins.len() as int);
        } else if s.policy.respect_robots && status == Status::Fetching {
        } else {
            let taken = s.with_frontier(s.frontier.take().0);
            crate::frontier::lemma_take_keeps_wf(s.frontier);
            assert(in_scope(head.url, s.seed, s.policy));
            if taken.robots_deny(head.url) {
                lemma_skip_keeps_wf(s, taken, SkipReason::RobotsDenied);
                lemma_next_action(taken.skip(head.url, SkipReason::RobotsDenied), now);
            } else if !taken.budget.consume(head.url).1 {
                lemma_skip_keeps_wf(s, taken, SkipReason::BudgetExhausted);
                lemma_next_action(taken.skip(head.url, SkipReason::BudgetExhausted), now);
            } else {
                crate::budget::lemma_consume_keeps_wf(taken.budget, head.url);
                crate::pacing::lemma_reserve(taken.pacing, origin, now, taken.delay(origin));
                let after = s.next_action(now).0;
                assert forall|k: int| 0 <= k < after.frontier.queue.len() implies in_scope(
                    (#[trigger] after.frontier.queue[k]).url,
                    after.seed,
                    after.policy,
                ) by {
                    assert(after.frontier.queue[k] == s.frontier.queue[k + 1]);
                }
            }
        }
    }
}

/// Settling robots rules leaves the session in order and the visited URLs as they were.
pub proof fn lemma_on_robots(s: SessionView, origin: OriginView, body: Option<Seq<u8>>, now: u64)
    requires
        s.wf(),
    ensures
        s.on_robots(origin, body, now).wf(),
        s.on_robots(origin, body, now).result == s.result,
{
    crate::cache::lemma_settle_keeps_wf(s.robots, origin, fetched_rules(body, s.agent), now);
}

/// A report of a page leaves the session in order, with no more under
/// way than before. What was visited before stays visited, in the same
/// order; at most the reported URL is added, behind the others, and only
/// if it was under way and the fetch brought a page.
pub proof fn lemma_on_page(s: SessionView, url: UrlView, fetched: FetchedView)
    requires
        s.wf(),
    ensures
        s.on_page(url, fetched).wf(),
        crate::outcome::is_prefix(s.result.visited, s.on_page(url, fetched).result.visited),
        s.on_page(url, fetched).result.visited == s.result.visited || (s.on_page(
            url,
            fetched,
        ).result.visited == s.result.visited.push(url) && fetched is Page && first_for(
            s.under_way,
            url,
        ) < s.under_way.len()),
        s.on_page(url, fetched).under_way.len() <= s.under_way.len(),
{
    let k = first_for(s.under_way, url);
    lemma_first_for(s.under_way, url);
    assert(s.result.visited.subrange(0, s.result.visited.len() as int) == s.result.visited);
    if k < s.under_way.len() {
        let entry = s.under_way[k];
        let rest = SessionView { under_way: s.under_way.remove(k), ..s };
        match fetched {
            FetchedView::Failed(e) => {
                crate::outcome::lemma_record(rest.result, url, Outcome::Failed(e));
            },
            FetchedView::Page(body) => {
                let found = links(body);
                lemma_discover_all_keeps_sound(rest, found, entry, found.len() as int);
                let grown = rest.discover_all(found, entry, found.len() as int);
                crate::outcome::lemma_record(
                    grown.result,
                    url,
                    Outcome::Visited { links: found.len() as usize },
                );
            },
        }
    }
}

/// Nothing is discovered once the frontier is closed.
pub proof fn lemma_closed_discovers_nothing(
    s: SessionView,
    found: Seq<Seq<u8>>,
    parent: EntryView,
    n: int,
)
    requires
        s.frontier.closed,
    ensures
        s.discover_all(found, parent, n) == s,
    decreases n,
{
    if n > 0 {
        lemma_closed_discovers_nothing(s, found, parent, n - 1);
    }
}

/// Calling a crawl off is no error and loses nothing: the result stands
/// as it was, the session is in order, and from then on every request for
/// work is answered `Done` at once, with the session left as it is.
pub proof fn lemma_cancel(s: SessionView, now: u64)
    requires
        s.wf(),
    ensures
        s.cancel().wf(),
        s.cancel().result == s.result,
        s.cancel().under_way == s.under_way,
        s.cancel().next_action(now) == (s.cancel(), ActionView::Done),
{
}

/// After a crawl was called off, the report of a page adds nothing to the
/// frontier, which stays closed: no URL is seen that was not seen, and what
/// waits is what waited. The report of a URL that is not under way changes
/// nothing at all.
pub proof fn lemma_page_after_cancel(s: SessionView, url: UrlView, fetched: FetchedView)
    requires
        s.wf(),
        s.frontier.closed,
    ensures
        s.on_page(url, fetched).frontier.closed,
        s.on_page(url, fetched).frontier.seen == s.frontier.seen,
        s.on_page(url, fetched).frontier.queue == s.frontier.queue,
        first_for(s.under_way, url) >= s.under_way.len() ==> s.on_page(url, fetched) == s,
{
    let k = first_for(s.under_way, url);
    lemma_first_for(s.under_way, url);
    if k < s.under_way.len() {
        let entry = s.under_way[k];
        let rest = SessionView { under_way: s.under_way.remove(k), ..s };
        match fetched {
            FetchedView::Failed(e) => {},
            FetchedView::Page(body) => {
                let found = links(body);
                lemma_closed_discovers_nothing(rest, found, entry, found.len() as int);
            },
        }
    }
}

impl CrawlSession {
    /// Sets up the crawl from `seed`. A seed that is no URL is the one
    /// error that ends a crawl before it starts.
    pub fn new(seed: &[u8], config: CrawlConfig) -> (r: Result<CrawlSession, UrlError>)
        ensures
            match r {
                Ok(s) => parse_url(seed@) matches Ok(u) && s@ == initial_session(u, config@)
                    && s@.wf(),
                Err(e) => parse_url(seed@) == Err::<UrlView, UrlError>(e),
            },
    {
        let url = match Url::parse(seed) {
            Ok(u) => u,
            Err(e) => {
                return Err(e);
            },
        };
        let agent = token_of(config.policy.user_agent.as_slice());
        let budget = BudgetTracker::new(&config.budget);
        let mut session = CrawlSession {
            seed: url.origin(),
            policy: config.policy,
            agent,
            frontier: Frontier::new(),
            budget,
            robots: RobotsCache::new(),
            pacing: Pacing::new(),
            under_way: Vec::new(),
            result: CrawlResult::new(),
        };
        assert(session@.under_way =~= Seq::empty());
        session.consider(FrontierEntry { url, depth: 0, parent: None });
        Ok(session)
    }

    fn denied(&self, url: &Url) -> (r: bool)
        requires
            self@.sound(),
        ensures
            r == self@.robots_deny(url@),
    {
        !self.robots.is_allowed(url, &self.policy)
    }

    fn turn_away(&mut self, url: &Url, reason: SkipReason)
        requires
            old(self)@.sound(),
        ensures
            final(self)@ == old(self)@.turn_away(url@, reason),
    {
        if self.frontier.note(url) {
            self.result.record(url, Outcome::Skipped(reason));
        }
    }

    fn consider(&mut self, entry: FrontierEntry)
        requires
            old(self)@.sound(),
        ensures
            final(self)@ == old(self)@.consider(entry@),
            final(self)@.sound(),
            final(self)@.under_way == old(self)@.under_way,
            final(self)@.frontier.in_flight == old(self)@.frontier.in_flight,
    {
        proof {
            lemma_consider_keeps_sound(self@, entry@);
        }
        if !accepts(&entry.url, &self.seed, &self.policy) {
            self.turn_away(&entry.url, SkipReason::OutOfScope);
        } else if self.denied(&entry.url) {
            self.turn_away(&entry.url, SkipReason::RobotsDenied);
        } else {
            self.frontier.offer(entry);
        }
    }

    fn discover(&mut self, link: &[u8], parent: &FrontierEntry)
        requires
            old(self)@.sound(),
        ensures
            final(self)@ == old(self)@.discover(link@, parent@),
            final(self)@.sound(),
    {
        match parent.url.join(link) {
            Err(_) => {},
            Ok(url) => {
                let depth: u32 = if parent.depth < u32::MAX {
                    parent.depth + 1
                } else {
                    parent.depth
                };
                self.consider(FrontierEntry { url, depth, parent: Some(parent.url.clone()) });
            },
        }
    }

    fn request_delay(&self, origin: &Origin) -> (d: u64)
        requires
            self@.sound(),
        ensures
            d == self@.delay(origin@),
    {
        let asked: u64 = self.robots.advertised_delay(origin, &self.policy);
        if asked > self.policy.request_delay {
            asked
        } else {
            self.policy.request_delay
        }
    }

    /// Says what to do next; see `SessionView::next_action`. `now` is the time in milliseconds.
    pub fn next_action(&mut self, now: u64) -> (action: Action)
        requires
            old(self)@.wf(),
        ensures
            (final(self)@, action@) == old(self)@.next_action(now),
            final(self)@.wf(),
    {
        loop
            invariant
                self@.wf(),
                self@.next_action(now) == old(self)@.next_action(now),
            decreases self@.frontier.queue.len(),
        {
            if self.frontier.is_closed() {
                return Action::Done;
            }
            let (origin, robots_url) = match self.frontier.peek() {
                None => {
                    if self.frontier.in_flight() == 0 {
                        self.frontier.close();
                        return Action::Done;
                    }
                    return Action::Wait;
                },
                Some(head) => (head.url.origin(), head.url.robots_url()),
            };
            if self.policy.respect_robots {
                match self.robots.status(&origin) {
                    Status::Unknown => {
                        self.robots.claim(&origin);
                        return Action::FetchRobots { origin, url: robots_url };
                    },
                    Status::Fetching => {
                        return Action::Wait;
                    },
                    Status::Known => {},
                }
            }
            let ghost before = self@;
            let ghost head = before.frontier.queue[0];
            let entry = match self.frontier.take() {
                Taken::Entry(e) => e,
                _ => {
                    return Action::Wait;
                },
            };
            let ghost taken = self@;
            assert(taken == before.with_frontier(before.frontier.take().0));
            let reason = if !accepts(&entry.url, &self.seed, &self.policy) {
                Some(SkipReason::OutOfScope)
            } else if self.denied(&entry.url) {
                Some(SkipReason::RobotsDenied)
            } else if !self.budget.try_consume(&entry.url) {
                Some(SkipReason::BudgetExhausted)
            } else {
                None
            };
            match reason {
                Some(why) => {
                    proof {
                        lemma_skip_keeps_wf(before, taken, why);
                    }
                    self.result.record(&entry.url, Outcome::Skipped(why));
                    self.frontier.finish();
                },
                None => {
                    let delay = self.request_delay(&origin);
                    let not_before = self.pacing.reserve(&origin, now, delay);
                    let url = entry.url.clone();
                    let ghost waiting = self@.under_way;
                    self.under_way.push(entry);
                    proof {
                        assert(self@.under_way =~= waiting.push(head));
                        assert forall|k: int| 0 <= k < self@.frontier.queue.len() implies in_scope(
                            (#[trigger] self@.frontier.queue[k]).url,
                            self@.seed,
                            self@.policy,
                        ) by {
                            assert(self@.frontier.queue[k] == before.frontier.queue[k + 1]);
                        }
                    }
                    return Action::Fetch { url, not_before };
                },
            }
        }
    }

    /// Takes in what the fetch of the robots.txt of `origin` brought:
    /// its body, or `None` where the fetch failed.
    pub fn on_robots(&mut self, origin: &Origin, body: Option<&[u8]>, now: u64)
        requires
            old(self)@.wf(),
        ensures
            final(self)@ == old(self)@.on_robots(
                origin@,
                match body {
                    Some(b) => Some(b@),
                    None => None,
                },
                now,
            ),
            final(self)@.wf(),
    {
        self.robots.settle(origin, body, self.agent.as_slice(), now);
    }

    /// Takes in what the fetch of `url` brought; see
    /// `SessionView::on_page`. The answer says whether the fetch was
    /// under way.
    pub fn on_page(&mut self, url: &Url, fetched: Fetched) -> (known: bool)
        requires
            old(self)@.wf(),
        ensures
            final(self)@ == old(self)@.on_page(url@, fetched@),
            final(self)@.wf(),
            known == (first_for(old(self)@.under_way, url@) < old(self)@.under_way.len()),
    {
        let mut k: usize = 0;
        while k < self.under_way.len() && !self.under_way[k].url.same(url)
            invariant
                self@ == old(self)@,
                k <= self.under_way@.len(),
                forall|m: int| 0 <= m < k ==> (#[trigger] self@.under_way[m]).url != url@,
            decreases self.under_way@.len() - k,
        {
            k += 1;
        }
        proof {
            lemma_first_for_unique(self@.under_way, url@, k as int);
        }
        if k >= self.under_way.len() {
            return false;
        }
        let ghost before = self@;
        let entry = self.under_way.remove(k);
        let ghost rest = self@;
        proof {
            assert(rest.under_way =~= before.under_way.remove(k as int));
            assert(entry@ == before.under_way[k as int]);
        }
        match fetched {
            Fetched::Failed(e) => {
                proof {
                    crate::outcome::lemma_record(self@.result, url@, Outcome::Failed(e));
                }
                self.result.record(url, Outcome::Failed(e));
            },
            Fetched::Page(body) => {
                let found = extract_links(body.as_slice());
                let ghost all = found@.map_values(|l: Vec<u8>| l@);
                let mut i: usize = 0;
                while i < found.len()
                    invariant
                        i <= found@.len(),
                        rest.sound(),
                        all == found@.map_values(|l: Vec<u8>| l@),
                        self@ == rest.discover_all(all, entry@, i as int),
                        self@.sound(),
                    decreases found@.len() - i,
                {
                    assert(all[i as int] == found@[i as int]@);
                    self.discover(found[i].as_slice(), &entry);
                    i += 1;
                }
                proof {
                    lemma_discover_all_keeps_sound(rest, all, entry@, all.len() as int);
                    crate::outcome::lemma_record(
                        self@.result,
                        url@,
                        Outcome::Visited { links: found.len() },
                    );
                }
                self.result.record(url, Outcome::Visited { links: found.len() });
            },
        }
        self.frontier.finish();
        true
    }

    /// Calls the crawl off. Fetches under way may still be reported;
    /// nothing more is handed out.
    pub fn cancel(&mut self)
        requires
            old(self)@.wf(),
        ensures
            final(self)@ == old(self)@.cancel(),
            final(self)@.wf(),
    {
        self.frontier.close();
    }

    /// Whether the crawl is over.
    pub fn is_done(&self) -> (r: bool)
        ensures
            r == self@.frontier.closed,
    {
        self.frontier.is_closed()
    }

    /// How many fetches were handed out and are not reported.
    pub fn pending(&self) -> (n: usize)
        ensures
            n == self@.under_way.len(),
    {
        self.under_way.len()
    }

    /// What the crawl has come to so far.
    pub fn result(&self) -> (r: &CrawlResult)
        ensures
            r@ == self@.result,
    {
        &self.result
    }

    /// Ends the session and hands out what the crawl came to.
    pub fn into_result(self) -> (r: CrawlResult)
        ensures
            r@ == self@.result,
    {
        self.result
    }

    /// The policy that the crawl runs under.
    pub fn policy(&self) -> (p: &ScopePolicy)
        ensures
            p@ == self@.policy,
    {
        &self.policy
    }
}

} // verus!
