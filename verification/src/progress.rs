//! What holds of every crawl, however it is driven: each URL that the
//! session has seen is in one place only (it waits, or is under way, or has
//! its outcome), and a crawl that is called off visits nothing that it would
//! not have visited had it gone on.

use crate::budget::lemma_initial_budget;
use crate::extract::links;
use crate::frontier::{EntryView, FrontierView};
use crate::outcome::{Outcome, SkipReason};
use crate::scope::in_scope;
use crate::session::{
    deeper, first_for, initial_session, lemma_consider_keeps_sound, lemma_first_for,
    lemma_next_action, lemma_on_page, lemma_on_robots, lemma_skip_keeps_wf, ActionView, ConfigView,
    FetchedView, SessionView,
};
use crate::url::{resolve, OriginView, UrlView};
use vstd::prelude::*;

verus! {

/// The URLs of entries, in their order.
pub open spec fn urls(entries: Seq<EntryView>) -> Seq<UrlView> {
    Seq::new(entries.len(), |i: int| entries[i].url)
}

/// No URL occurs twice.
pub open spec fn distinct(a: Seq<UrlView>) -> bool {
    forall|i: int, j: int| #![trigger a[i], a[j]] 0 <= i < j < a.len() ==> a[i] != a[j]
}

/// No URL occurs in both.
pub open spec fn apart(a: Seq<UrlView>, b: Seq<UrlView>) -> bool {
    forall|i: int, j: int| #![trigger a[i], b[j]] 0 <= i < a.len() && 0 <= j < b.len() ==> a[i] != b[j]
}

/// Every URL of `a` occurs in `b`.
pub open spec fn within(a: Seq<UrlView>, b: Seq<UrlView>) -> bool {
    forall|i: int| 0 <= i < a.len() ==> b.contains(#[trigger] a[i])
}

/// Every URL that the session has to do with is in one place only: it
/// waits, or it is under way, or it has its outcome; and all of them
/// were seen.
pub open spec fn neat(s: SessionView) -> bool {
    &&& s.sound()
    &&& distinct(urls(s.frontier.queue))
    &&& distinct(urls(s.under_way))
    &&& apart(urls(s.frontier.queue), urls(s.under_way))
    &&& apart(urls(s.frontier.queue), s.result.urls)
    &&& apart(urls(s.under_way), s.result.urls)
    &&& within(urls(s.under_way), s.frontier.seen)
    &&& within(s.result.urls, s.frontier.seen)
}

/// A session between two calls: in order, each URL in one place.
pub open spec fn tidy(s: SessionView) -> bool {
    s.wf() && neat(s)
}

/// `url` was seen and neither waits nor has an outcome.
pub open spec fn set_aside(s: SessionView, url: UrlView) -> bool {
    &&& s.frontier.seen.contains(url)
    &&& !urls(s.frontier.queue).contains(url)
    &&& !s.result.urls.contains(url)
}

proof fn lemma_within_grows(a: Seq<UrlView>, b: Seq<UrlView>, x: UrlView)
    requires
        within(a, b),
    ensures
        within(a, b.push(x)),
        within(a.push(x), b.push(x)),
{
    assert forall|i: int| 0 <= i < a.len() implies b.push(x).contains(#[trigger] a[i]) by {
        let m = choose|m: int| 0 <= m < b.len() && b[m] == a[i];
        assert(b.push(x)[m] == a[i]);
    }
    assert forall|i: int| 0 <= i < a.push(x).len() implies b.push(x).contains(
        #[trigger] a.push(x)[i],
    ) by {
        if i < a.len() {
            assert(a.push(x)[i] == a[i]);
            let m = choose|m: int| 0 <= m < b.len() && b[m] == a[i];
            assert(b.push(x)[m] == a[i]);
        } else {
            assert(b.push(x)[b.len() as int] == x);
        }
    }
}

proof fn lemma_unseen_is_new(a: Seq<UrlView>, b: Seq<UrlView>, x: UrlView)
    requires
        within(a, b),
        !b.contains(x),
    ensures
        !a.contains(x),
{
    if a.contains(x) {
        let i = choose|i: int| 0 <= i < a.len() && a[i] == x;
        assert(b.contains(a[i]));
    }
}

/// What waits was seen.
proof fn lemma_waiting_was_seen(f: FrontierView)
    requires
        f.wf(),
    ensures
        within(urls(f.queue), f.seen),
{
    assert forall|i: int| 0 <= i < urls(f.queue).len() implies f.seen.contains(
        #[trigger] urls(f.queue)[i],
    ) by {
        assert(f.seen.contains(f.queue[i].url));
    }
}

/// Taking notice of a URL keeps every URL in its one place, and leaves
/// aside what was set aside.
pub proof fn lemma_consider_keeps_neat(s: SessionView, entry: EntryView, aside: UrlView)
    requires
        neat(s),
    ensures
        neat(s.consider(entry)),
        set_aside(s, aside) ==> set_aside(s.consider(entry), aside),
{
    lemma_consider_keeps_sound(s, entry);
    lemma_waiting_was_seen(s.frontier);
    let t = s.consider(entry);
    let x = entry.url;
    if t != s {
        assert(!s.frontier.seen.contains(x));
        lemma_unseen_is_new(urls(s.frontier.queue), s.frontier.seen, x);
        lemma_unseen_is_new(urls(s.under_way), s.frontier.seen, x);
        lemma_unseen_is_new(s.result.urls, s.frontier.seen, x);
        assert(t.frontier.seen == s.frontier.seen.push(x));
        lemma_within_grows(urls(s.under_way), s.frontier.seen, x);
        lemma_within_grows(s.result.urls, s.frontier.seen, x);
        if t.frontier.queue != s.frontier.queue {
            assert(t.frontier.queue == s.frontier.queue.push(entry));
            assert(urls(t.frontier.queue) =~= urls(s.frontier.queue).push(x));
            assert(t.result == s.result);
        } else {
            assert(t.result.urls == s.result.urls.push(x));
        }
        if set_aside(s, aside) {
            assert(aside != x);
            let m = choose|m: int| 0 <= m < s.frontier.seen.len() && s.frontier.seen[m] == aside;
            assert(t.frontier.seen[m] == aside);
        }
    }
}

/// Discovering links keeps every URL in its one place, and leaves aside
/// what was set aside.
pub proof fn lemma_discover_all_keeps_neat(
    s: SessionView,
    found: Seq<Seq<u8>>,
    parent: EntryView,
    n: int,
    aside: UrlView,
)
    requires
        neat(s),
    ensures
        neat(s.discover_all(found, parent, n)),
        s.discover_all(found, parent, n).under_way == s.under_way,
        s.discover_all(found, parent, n).frontier.in_flight == s.frontier.in_flight,
        s.discover_all(found, parent, n).frontier.closed == s.frontier.closed,
        s.discover_all(found, parent, n).result.visited == s.result.visited,
        set_aside(s, aside) ==> set_aside(s.discover_all(found, parent, n), aside),
    decreases n,
{
    if n > 0 {
        lemma_discover_all_keeps_neat(s, found, parent, n - 1, aside);
        let before = s.discover_all(found, parent, n - 1);
        match resolve(parent.url, found[n - 1]) {
            Err(_) => {},
            Ok(url) => {
                let entry = EntryView { url, depth: deeper(parent.depth), parent: Some(parent.url) };
                lemma_consider_keeps_sound(before, entry);
                lemma_consider_keeps_neat(before, entry, aside);
            },
        }
    }
}

/// However far a crawl has got, no pattern has had more pages counted
/// against it than its cap allows.
pub proof fn lemma_budget_is_kept(s: SessionView, j: int)
    requires
        s.wf(),
        0 <= j < s.budget.patterns.len(),
    ensures
        crate::budget::spent(s.budget.charged, s.budget.patterns, j) <= s.budget.limits[j],
{
    crate::budget::lemma_spent_within_limit(s.budget, j);
}

/// A crawl starts tidy.
pub proof fn lemma_initial_session_is_tidy(seed: UrlView, config: ConfigView)
    ensures
        tidy(initial_session(seed, config)),
{
    lemma_initial_budget(config.budget);
    let s = initial_session(seed, config);
    let entry = EntryView { url: seed, depth: 0, parent: None };
    let base = SessionView {
        frontier: FrontierView::empty(),
        under_way: Seq::empty(),
        result: crate::outcome::ResultView::empty(),
        ..s
    };
    assert(neat(base));
    assert(s == base.consider(entry));
    lemma_consider_keeps_sound(base, entry);
    lemma_consider_keeps_neat(base, entry, seed);
}

/// `next_action` leaves a tidy session tidy, with nothing under way lost.
pub proof fn lemma_next_action_keeps_tidy(s: SessionView, now: u64)
    requires
        tidy(s),
    ensures
        tidy(s.next_action(now).0),
        within(urls(s.under_way), urls(s.next_action(now).0.under_way)),
        s.next_action(now).0.result.visited == s.result.visited,
    decreases s.frontier.queue.len(),
{
    lemma_next_action(s, now);
    let t = s.next_action(now).0;
    assert(within(urls(s.under_way), urls(s.under_way))) by {
        assert forall|i: int| 0 <= i < urls(s.under_way).len() implies urls(
            s.under_way,
        ).contains(#[trigger] urls(s.under_way)[i]) by {}
    }
    if !s.frontier.closed && s.frontier.queue.len() > 0 {
        let head = s.frontier.queue[0];
        let origin = head.url.origin();
        let status = s.robots.status(origin);
        if s.policy.respect_robots && status != crate::cache::Status::Known {
        } else {
            let taken = s.with_frontier(s.frontier.take().0);
            lemma_waiting_was_seen(s.frontier);
            assert(urls(s.frontier.queue)[0] == head.url);
            assert(urls(taken.frontier.queue) =~= urls(s.frontier.queue).subrange(
                1,
                s.frontier.queue.len() as int,
            ));
            assert forall|k: int| 0 <= k < urls(taken.frontier.queue).len() implies #[trigger] urls(
                taken.frontier.queue,
            )[k] != head.url by {
                assert(urls(taken.frontier.queue)[k] == urls(s.frontier.queue)[k + 1]);
            }
            assert(in_scope(head.url, s.seed, s.policy));
            let skipped = taken.robots_deny(head.url) || !taken.budget.consume(head.url).1;
            if skipped {
                let reason = if taken.robots_deny(head.url) {
                    SkipReason::RobotsDenied
                } else {
                    SkipReason::BudgetExhausted
                };
                let after = taken.skip(head.url, reason);
                lemma_skip_keeps_wf(s, taken, reason);
                assert(!s.result.urls.contains(head.url)) by {
                    if s.result.urls.contains(head.url) {
                        let j = choose|j: int|
                            0 <= j < s.result.urls.len() && s.result.urls[j] == head.url;
                        assert(urls(s.frontier.queue)[0] != s.result.urls[j]);
                    }
                }
                assert(after.result.urls == s.result.urls.push(head.url));
                assert(s.frontier.seen.contains(urls(s.frontier.queue)[0]));
                assert(within(after.result.urls, after.frontier.seen)) by {
                    assert forall|i: int| 0 <= i < after.result.urls.len() implies s.frontier.seen.contains(
                    #[trigger] after.result.urls[i]) by {
                        if i < s.result.urls.len() {
                            assert(after.result.urls[i] == s.result.urls[i]);
                        }
                    }
                }
                assert(apart(urls(after.under_way), after.result.urls)) by {
                    assert forall|i: int, j: int|
                        0 <= i < urls(after.under_way).len() && 0 <= j < after.result.urls.len() implies #[trigger] urls(
                        after.under_way,
                    )[i] != #[trigger] after.result.urls[j] by {
                        if j < s.result.urls.len() {
                            assert(after.result.urls[j] == s.result.urls[j]);
                        } else {
                            assert(urls(s.frontier.queue)[0] != urls(s.under_way)[i]);
                        }
                    }
                }
                assert(apart(urls(after.frontier.queue), after.result.urls)) by {
                    assert forall|i: int, j: int|
                        0 <= i < urls(after.frontier.queue).len() && 0 <= j
                            < after.result.urls.len() implies #[trigger] urls(
                        after.frontier.queue,
                    )[i] != #[trigger] after.result.urls[j] by {
                        assert(urls(after.frontier.queue)[i] == urls(s.frontier.queue)[i + 1]);
                        if j < s.result.urls.len() {
                            assert(after.result.urls[j] == s.result.urls[j]);
                        }
                    }
                }
                assert(distinct(urls(after.frontier.queue))) by {
                    assert forall|i: int, j: int|
                        0 <= i < j < urls(after.frontier.queue).len() implies #[trigger] urls(
                        after.frontier.queue,
                    )[i] != #[trigger] urls(after.frontier.queue)[j] by {
                        assert(urls(after.frontier.queue)[i] == urls(s.frontier.queue)[i + 1]);
                        assert(urls(after.frontier.queue)[j] == urls(s.frontier.queue)[j + 1]);
                    }
                }
                assert(apart(urls(after.frontier.queue), urls(after.under_way))) by {
                    assert forall|i: int, j: int|
                        0 <= i < urls(after.frontier.queue).len() && 0 <= j < urls(
                            after.under_way,
                        ).len() implies #[trigger] urls(after.frontier.queue)[i] != #[trigger] urls(
                        after.under_way,
                    )[j] by {
                        assert(urls(after.frontier.queue)[i] == urls(s.frontier.queue)[i + 1]);
                    }
                }
                assert(neat(after));
                lemma_next_action_keeps_tidy(after, now);
            } else {
                assert(urls(t.under_way) =~= urls(s.under_way).push(head.url));
                assert(t.result == s.result);
                assert(t.frontier.seen == s.frontier.seen);
                assert(t.frontier.queue == taken.frontier.queue);
                assert(s.frontier.seen.contains(urls(s.frontier.queue)[0]));
                assert(distinct(urls(t.under_way))) by {
                    assert forall|i: int, j: int|
                        0 <= i < j < urls(t.under_way).len() implies #[trigger] urls(t.under_way)[i]
                        != #[trigger] urls(t.under_way)[j] by {
                        if j < urls(s.under_way).len() {
                            assert(urls(t.under_way)[i] == urls(s.under_way)[i]);
                            assert(urls(t.under_way)[j] == urls(s.under_way)[j]);
                        } else {
                            assert(urls(t.under_way)[i] == urls(s.under_way)[i]);
                            assert(urls(s.frontier.queue)[0] != urls(s.under_way)[i]);
                        }
                    }
                }
                assert(within(urls(t.under_way), t.frontier.seen)) by {
                    assert forall|i: int| 0 <= i < urls(t.under_way).len() implies t.frontier.seen.contains(
                    #[trigger] urls(t.under_way)[i]) by {
                        if i < urls(s.under_way).len() {
                            assert(urls(t.under_way)[i] == urls(s.under_way)[i]);
                        }
                    }
                }
                assert(apart(urls(t.under_way), t.result.urls)) by {
                    assert forall|i: int, j: int|
                        0 <= i < urls(t.under_way).len() && 0 <= j < t.result.urls.len() implies #[trigger] urls(
                        t.under_way,
                    )[i] != #[trigger] t.result.urls[j] by {
                        if i < urls(s.under_way).len() {
                            assert(urls(t.under_way)[i] == urls(s.under_way)[i]);
                        } else {
                            assert(urls(s.frontier.queue)[0] != s.result.urls[j]);
                        }
                    }
                }
                assert(apart(urls(t.frontier.queue), t.result.urls)) by {
                    assert forall|i: int, j: int|
                        0 <= i < urls(t.frontier.queue).len() && 0 <= j < t.result.urls.len() implies #[trigger] urls(
                        t.frontier.queue,
                    )[i] != #[trigger] t.result.urls[j] by {
                        assert(urls(t.frontier.queue)[i] == urls(s.frontier.queue)[i + 1]);
                    }
                }
                assert(distinct(urls(t.frontier.queue))) by {
                    assert forall|i: int, j: int|
                        0 <= i < j < urls(t.frontier.queue).len() implies #[trigger] urls(
                        t.frontier.queue,
                    )[i] != #[trigger] urls(t.frontier.queue)[j] by {
                        assert(urls(t.frontier.queue)[i] == urls(s.frontier.queue)[i + 1]);
                        assert(urls(t.frontier.queue)[j] == urls(s.frontier.queue)[j + 1]);
                    }
                }
                assert(apart(urls(t.frontier.queue), urls(t.under_way))) by {
                    assert forall|i: int, j: int|
                        0 <= i < urls(t.frontier.queue).len() && 0 <= j < urls(t.under_way).len() implies #[trigger] urls(
                        t.frontier.queue,
                    )[i] != #[trigger] urls(t.under_way)[j] by {
                        assert(urls(t.frontier.queue)[i] == urls(s.frontier.queue)[i + 1]);
                        if j < urls(s.under_way).len() {
                            assert(urls(t.under_way)[j] == urls(s.under_way)[j]);
                        }
                    }
                }
                assert(within(urls(s.under_way), urls(t.under_way))) by {
                    assert forall|i: int| 0 <= i < urls(s.under_way).len() implies urls(
                        t.under_way,
                    ).contains(#[trigger] urls(s.under_way)[i]) by {
                        assert(urls(t.under_way)[i] == urls(s.under_way)[i]);
                    }
                }
            }
        }
    }
}

/// Settling robots rules leaves a tidy session tidy.
pub proof fn lemma_on_robots_keeps_tidy(
    s: SessionView,
    origin: OriginView,
    body: Option<Seq<u8>>,
    now: u64,
)
    requires
        tidy(s),
    ensures
        tidy(s.on_robots(origin, body, now)),
        s.on_robots(origin, body, now).under_way == s.under_way,
        s.on_robots(origin, body, now).result == s.result,
        s.on_robots(origin, body, now).frontier == s.frontier,
{
    lemma_on_robots(s, origin, body, now);
}

/// The report of a page leaves a tidy session tidy, and a closed one
/// closed. The URL that is reported is under way no longer, everything
/// else that was under way still is, and nothing else is. Where the URL
/// was under way and the fetch brought a page, the URL is visited from now
/// on, behind all that were; in every other case the visited URLs stay as
/// they are.
pub proof fn lemma_on_page_keeps_tidy(s: SessionView, url: UrlView, fetched: FetchedView)
    requires
        tidy(s),
    ensures
        tidy(s.on_page(url, fetched)),
        within(urls(s.on_page(url, fetched).under_way), urls(s.under_way)),
        !urls(s.on_page(url, fetched).under_way).contains(url),
        forall|x: UrlView|
            urls(s.under_way).contains(x) && x != url ==> #[trigger] urls(
                s.on_page(url, fetched).under_way,
            ).contains(x),
        urls(s.under_way).contains(url) && fetched is Page ==> s.on_page(
            url,
            fetched,
        ).result.visited == s.result.visited.push(url),
        !(urls(s.under_way).contains(url) && fetched is Page) ==> s.on_page(
            url,
            fetched,
        ).result.visited == s.result.visited,
        s.frontier.closed ==> s.on_page(url, fetched).frontier.closed,
{
    lemma_on_page(s, url, fetched);
    lemma_first_for(s.under_way, url);
    let k = first_for(s.under_way, url);
    let t = s.on_page(url, fetched);
    let before = urls(s.under_way);
    if k >= s.under_way.len() {
        assert(!before.contains(url)) by {
            if before.contains(url) {
                let i = choose|i: int| 0 <= i < before.len() && before[i] == url;
                assert(s.under_way[i].url != url);
            }
        }
        assert forall|i: int| 0 <= i < before.len() implies before.contains(
            #[trigger] before[i],
        ) by {}
    } else {
        let entry = s.under_way[k];
        assert(before[k] == url);
        let rest = SessionView { under_way: s.under_way.remove(k), ..s };
        let after = urls(rest.under_way);
        s.under_way.remove_ensures(k);
        assert forall|i: int| 0 <= i < after.len() implies #[trigger] after[i] == before[if i < k {
            i
        } else {
            i + 1
        }] by {}
        assert(distinct(after)) by {
            assert forall|i: int, j: int| 0 <= i < j < after.len() implies #[trigger] after[i]
                != #[trigger] after[j] by {
                let a = if i < k {
                    i
                } else {
                    i + 1
                };
                let b = if j < k {
                    j
                } else {
                    j + 1
                };
                assert(after[i] == before[a]);
                assert(after[j] == before[b]);
                assert(before[a] != before[b]);
            }
        }
        assert forall|i: int| 0 <= i < after.len() implies #[trigger] after[i] != url by {
            let a = if i < k {
                i
            } else {
                i + 1
            };
            assert(after[i] == before[a]);
            if a < k {
                assert(before[a] != before[k]);
            } else {
                assert(before[k] != before[a]);
            }
        }
        assert(within(after, before)) by {
            assert forall|i: int| 0 <= i < after.len() implies before.contains(
                #[trigger] after[i],
            ) by {
                let a = if i < k {
                    i
                } else {
                    i + 1
                };
                assert(after[i] == before[a]);
            }
        }
        assert(apart(urls(rest.frontier.queue), after)) by {
            assert forall|i: int, j: int|
                0 <= i < urls(rest.frontier.queue).len() && 0 <= j < after.len() implies #[trigger] urls(
                rest.frontier.queue,
            )[i] != #[trigger] after[j] by {
                let b = if j < k {
                    j
                } else {
                    j + 1
                };
                assert(after[j] == before[b]);
                assert(urls(s.frontier.queue)[i] != before[b]);
            }
        }
        assert(apart(after, rest.result.urls)) by {
            assert forall|i: int, j: int|
                0 <= i < after.len() && 0 <= j < rest.result.urls.len() implies #[trigger] after[i]
                != #[trigger] rest.result.urls[j] by {
                let a = if i < k {
                    i
                } else {
                    i + 1
                };
                assert(after[i] == before[a]);
                assert(before[a] != s.result.urls[j]);
            }
        }
        assert(within(after, rest.frontier.seen)) by {
            assert forall|i: int| 0 <= i < after.len() implies rest.frontier.seen.contains(
                #[trigger] after[i],
            ) by {
                let a = if i < k {
                    i
                } else {
                    i + 1
                };
                assert(after[i] == before[a]);
                assert(s.frontier.seen.contains(before[a]));
            }
        }
        assert(neat(rest));
        assert(set_aside(rest, url)) by {
            assert(s.frontier.seen.contains(before[k]));
            if urls(s.frontier.queue).contains(url) {
                let i = choose|i: int|
                    0 <= i < urls(s.frontier.queue).len() && urls(s.frontier.queue)[i] == url;
                assert(urls(s.frontier.queue)[i] != before[k]);
            }
            if s.result.urls.contains(url) {
                let j = choose|j: int| 0 <= j < s.result.urls.len() && s.result.urls[j] == url;
                assert(before[k] != s.result.urls[j]);
            }
        }
        let grown = match fetched {
            FetchedView::Failed(e) => rest,
            FetchedView::Page(body) => rest.discover_all(
                links(body),
                entry,
                links(body).len() as int,
            ),
        };
        match fetched {
            FetchedView::Failed(e) => {},
            FetchedView::Page(body) => {
                lemma_discover_all_keeps_neat(
                    rest,
                    links(body),
                    entry,
                    links(body).len() as int,
                    url,
                );
            },
        }
        let outcome = match fetched {
            FetchedView::Failed(e) => Outcome::Failed(e),
            FetchedView::Page(body) => Outcome::Visited { links: links(body).len() as usize },
        };
        let done = grown.with_result(grown.result.record(url, outcome));
        assert(t == done.with_frontier(done.frontier.finish()));
        assert(done.result.urls == grown.result.urls.push(url));
        lemma_within_grows(grown.result.urls, grown.frontier.seen, url);
        assert(within(done.result.urls, done.frontier.seen)) by {
            assert forall|i: int| 0 <= i < done.result.urls.len() implies done.frontier.seen.contains(
            #[trigger] done.result.urls[i]) by {
                if i < grown.result.urls.len() {
                    assert(done.result.urls[i] == grown.result.urls[i]);
                    assert(grown.frontier.seen.contains(grown.result.urls[i]));
                }
            }
        }
        assert(apart(urls(done.frontier.queue), done.result.urls)) by {
            assert forall|i: int, j: int|
                0 <= i < urls(done.frontier.queue).len() && 0 <= j < done.result.urls.len() implies #[trigger] urls(
                done.frontier.queue,
            )[i] != #[trigger] done.result.urls[j] by {
                if j < grown.result.urls.len() {
                    assert(done.result.urls[j] == grown.result.urls[j]);
                } else {
                    assert(urls(grown.frontier.queue).contains(urls(grown.frontier.queue)[i]));
                }
            }
        }
        assert(apart(urls(done.under_way), done.result.urls)) by {
            assert forall|i: int, j: int|
                0 <= i < urls(done.under_way).len() && 0 <= j < done.result.urls.len() implies #[trigger] urls(
                done.under_way,
            )[i] != #[trigger] done.result.urls[j] by {
                assert(urls(done.under_way)[i] == after[i]);
                if j < grown.result.urls.len() {
                    assert(done.result.urls[j] == grown.result.urls[j]);
                    assert(urls(grown.under_way)[i] != grown.result.urls[j]);
                }
            }
        }
        assert(neat(done));
        assert(neat(t));
        assert(urls(t.under_way) == after);
        assert(!after.contains(url));
        assert forall|x: UrlView| before.contains(x) && x != url implies #[trigger] after.contains(
            x,
        ) by {
            let a = choose|a: int| 0 <= a < before.len() && before[a] == x;
            let i = if a < k {
                a
            } else {
                a - 1
            };
            assert(after[i] == before[a]);
        }
        assert(before.contains(url));
    }
}

/// Calling a crawl off leaves a tidy session tidy.
pub proof fn lemma_cancel_keeps_tidy(s: SessionView)
    requires
        tidy(s),
    ensures
        tidy(s.cancel()),
        s.cancel().frontier.closed,
        s.cancel().under_way == s.under_way,
        s.cancel().result == s.result,
{
}

/// `c` is a crawl that was called off where `u` went on: `c` hands out
/// nothing more, has nothing under way that `u` has not, and has visited
/// nothing that `u` has not.
pub open spec fn trails(c: SessionView, u: SessionView) -> bool {
    &&& tidy(c)
    &&& tidy(u)
    &&& c.frontier.closed
    &&& within(urls(c.under_way), urls(u.under_way))
    &&& within(c.result.visited, u.result.visited)
}

proof fn lemma_within_itself(a: Seq<UrlView>)
    ensures
        within(a, a),
{
    assert forall|i: int| 0 <= i < a.len() implies a.contains(#[trigger] a[i]) by {}
}

proof fn lemma_within_chain(a: Seq<UrlView>, b: Seq<UrlView>, c: Seq<UrlView>)
    requires
        within(a, b),
        within(b, c),
    ensures
        within(a, c),
{
    assert forall|i: int| 0 <= i < a.len() implies c.contains(#[trigger] a[i]) by {
        let m = choose|m: int| 0 <= m < b.len() && b[m] == a[i];
        assert(c.contains(b[m]));
    }
}

/// The moment a crawl is called off, it trails the crawl that it was.
pub proof fn lemma_cancelled_trails(s: SessionView)
    requires
        tidy(s),
    ensures
        trails(s.cancel(), s),
{
    lemma_within_itself(urls(s.under_way));
    lemma_within_itself(s.result.visited);
}

/// While the crawl that went on is asked for work, the one that was
/// called off keeps trailing it, whether it is asked too or not: asked, it
/// answers `Done` and stays as it is.
pub proof fn lemma_trails_through_next_action(c: SessionView, u: SessionView, now: u64)
    requires
        trails(c, u),
    ensures
        c.next_action(now) == (c, ActionView::Done),
        trails(c, u.next_action(now).0),
{
    lemma_next_action_keeps_tidy(u, now);
    lemma_within_chain(urls(c.under_way), urls(u.under_way), urls(u.next_action(now).0.under_way));
}

/// Robots rules that are settled in both crawls leave the one trailing the other.
pub proof fn lemma_trails_through_on_robots(
    c: SessionView,
    u: SessionView,
    origin: OriginView,
    body: Option<Seq<u8>>,
    now: u64,
)
    requires
        trails(c, u),
    ensures
        trails(c.on_robots(origin, body, now), u.on_robots(origin, body, now)),
        trails(c, u.on_robots(origin, body, now)),
{
    lemma_on_robots_keeps_tidy(c, origin, body, now);
    lemma_on_robots_keeps_tidy(u, origin, body, now);
}

/// A page that is reported to both crawls leaves the one trailing the
/// other; so does a page that is reported to the crawl that went on alone,
/// where the other has no fetch of it under way.
pub proof fn lemma_trails_through_on_page(
    c: SessionView,
    u: SessionView,
    url: UrlView,
    fetched: FetchedView,
)
    requires
        trails(c, u),
    ensures
        trails(c.on_page(url, fetched), u.on_page(url, fetched)),
        !urls(c.under_way).contains(url) ==> trails(c, u.on_page(url, fetched)),
{
    lemma_on_page_keeps_tidy(c, url, fetched);
    lemma_on_page_keeps_tidy(u, url, fetched);
    let c2 = c.on_page(url, fetched);
    let u2 = u.on_page(url, fetched);
    assert(urls(c.under_way).contains(url) ==> urls(u.under_way).contains(url)) by {
        if urls(c.under_way).contains(url) {
            let i = choose|i: int| 0 <= i < urls(c.under_way).len() && urls(c.under_way)[i] == url;
            assert(urls(u.under_way).contains(urls(c.under_way)[i]));
        }
    }
    assert(within(urls(c2.under_way), urls(u2.under_way))) by {
        assert forall|i: int| 0 <= i < urls(c2.under_way).len() implies urls(
            u2.under_way,
        ).contains(#[trigger] urls(c2.under_way)[i]) by {
            let x = urls(c2.under_way)[i];
            assert(urls(c.under_way).contains(x));
            assert(urls(c2.under_way).contains(x));
            assert(x != url);
            let m = choose|m: int| 0 <= m < urls(c.under_way).len() && urls(c.under_way)[m] == x;
            assert(urls(u.under_way).contains(urls(c.under_way)[m]));
        }
    }
    assert(within(c2.result.visited, u2.result.visited)) by {
        assert forall|i: int| 0 <= i < c2.result.visited.len() implies u2.result.visited.contains(
        #[trigger] c2.result.visited[i]) by {
            if i < c.result.visited.len() {
                assert(c2.result.visited[i] == c.result.visited[i]);
                let m = choose|m: int|
                    0 <= m < u.result.visited.len() && u.result.visited[m] == c.result.visited[i];
                assert(u2.result.visited[m] == u.result.visited[m]);
            } else {
                assert(c2.result.visited[i] == url);
                assert(u2.result.visited[u.result.visited.len() as int] == url);
            }
        }
    }
    if !urls(c.under_way).contains(url) {
        assert(within(urls(c.under_way), urls(u2.under_way))) by {
            assert forall|i: int| 0 <= i < urls(c.under_way).len() implies urls(
                u2.under_way,
            ).contains(#[trigger] urls(c.under_way)[i]) by {
                let x = urls(c.under_way)[i];
                assert(urls(c.under_way).contains(x));
                assert(urls(u.under_way).contains(x));
            }
        }
        assert(within(c.result.visited, u2.result.visited)) by {
            assert forall|i: int| 0 <= i < c.result.visited.len() implies u2.result.visited.contains(
            #[trigger] c.result.visited[i]) by {
                let m = choose|m: int|
                    0 <= m < u.result.visited.len() && u.result.visited[m] == c.result.visited[i];
                assert(u2.result.visited[m] == u.result.visited[m]);
            }
        }
    }
}

/// What may happen to a session.
pub enum EventView {
    /// A worker asks for work at the given time.
    Asked(u64),
    /// The fetch of a robots.txt is reported.
    Robots { origin: OriginView, body: Option<Seq<u8>>, now: u64 },
    /// The fetch of a page is reported.
    Page { url: UrlView, fetched: FetchedView },
    /// The crawl is called off.
    Cancelled,
}

/// The session after one event.
pub open spec fn after(s: SessionView, event: EventView) -> SessionView {
    match event {
        EventView::Asked(now) => s.next_action(now).0,
        EventView::Robots { origin, body, now } => s.on_robots(origin, body, now),
        EventView::Page { url, fetched } => s.on_page(url, fetched),
        EventView::Cancelled => s.cancel(),
    }
}

/// The session after a run of events, one after the other.
pub open spec fn after_all(s: SessionView, events: Seq<EventView>) -> SessionView
    decreases events.len(),
{
    if events.len() == 0 {
        s
    } else {
        after(after_all(s, events.drop_last()), events.last())
    }
}

/// Whatever happens to a tidy session, it stays tidy, and what it has
/// visited stays visited, in the same order.
pub proof fn lemma_event_keeps_tidy(s: SessionView, event: EventView)
    requires
        tidy(s),
    ensures
        tidy(after(s, event)),
        crate::outcome::is_prefix(s.result.visited, after(s, event).result.visited),
{
    assert(s.result.visited.subrange(0, s.result.visited.len() as int) == s.result.visited);
    match event {
        EventView::Asked(now) => {
            lemma_next_action_keeps_tidy(s, now);
        },
        EventView::Robots { origin, body, now } => {
            lemma_on_robots_keeps_tidy(s, origin, body, now);
        },
        EventView::Page { url, fetched } => {
            lemma_on_page_keeps_tidy(s, url, fetched);
            lemma_on_page(s, url, fetched);
        },
        EventView::Cancelled => {
            lemma_cancel_keeps_tidy(s);
        },
    }
}

/// Through any run of events a crawl stays tidy and only adds to what it has visited.
pub proof fn lemma_run_keeps_tidy(s: SessionView, events: Seq<EventView>)
    requires
        tidy(s),
    ensures
        tidy(after_all(s, events)),
        crate::outcome::is_prefix(s.result.visited, after_all(s, events).result.visited),
    decreases events.len(),
{
    if events.len() == 0 {
        assert(s.result.visited.subrange(0, s.result.visited.len() as int) == s.result.visited);
    } else {
        lemma_run_keeps_tidy(s, events.drop_last());
        let before = after_all(s, events.drop_last());
        lemma_event_keeps_tidy(before, events.last());
        let end = after_all(s, events);
        assert(end.result.visited.subrange(0, s.result.visited.len() as int)
            == before.result.visited.subrange(0, s.result.visited.len() as int));
    }
}

/// One event, in the crawl that was called off and in the one that went
/// on, leaves the first trailing the second.
pub proof fn lemma_trails_through_event(c: SessionView, u: SessionView, event: EventView)
    requires
        trails(c, u),
    ensures
        trails(after(c, event), after(u, event)),
{
    match event {
        EventView::Asked(now) => {
            lemma_trails_through_next_action(c, u, now);
        },
        EventView::Robots { origin, body, now } => {
            lemma_trails_through_on_robots(c, u, origin, body, now);
        },
        EventView::Page { url, fetched } => {
            lemma_trails_through_on_page(c, u, url, fetched);
        },
        EventView::Cancelled => {
            lemma_cancel_keeps_tidy(c);
            lemma_cancel_keeps_tidy(u);
        },
    }
}

/// A crawl that is called off visits no URL that it would not have
/// visited had it gone on: whatever happens afterwards, to the crawl that
/// was called off and to the same crawl had it gone on, what the first has
/// visited is among what the second has.
pub proof fn lemma_cancelled_crawl_visits_no_more(s: SessionView, events: Seq<EventView>)
    requires
        tidy(s),
    ensures
        trails(after_all(s.cancel(), events), after_all(s, events)),
        within(after_all(s.cancel(), events).result.visited, after_all(s, events).result.visited),
    decreases events.len(),
{
    if events.len() == 0 {
        lemma_cancelled_trails(s);
    } else {
        lemma_cancelled_crawl_visits_no_more(s, events.drop_last());
        lemma_trails_through_event(
            after_all(s.cancel(), events.drop_last()),
            after_all(s, events.drop_last()),
            events.last(),
        );
    }
}

} // verus!
