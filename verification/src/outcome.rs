//! The crawl result: what became of each URL that the crawl dealt with, and
//! the successfully visited URLs in the order in which their pages came in.

use crate::url::{Url, UrlView};
use vstd::prelude::*;

verus! {

/// Why a fetch brought no page.
#[derive(Clone, Copy, Debug, PartialEq, Eq, Structural)]
pub enum FetchError {
    Timeout,
    Connection,
    /// The origin answered with a status that is no success.
    Status(u16),
    /// The body could not be read as a page.
    UnreadableBody,
}

/// Why a URL was not fetched.
#[derive(Clone, Copy, Debug, PartialEq, Eq, Structural)]
pub enum SkipReason {
    OutOfScope,
    RobotsDenied,
    BudgetExhausted,
}

/// What became of one URL.
#[derive(Clone, Copy, Debug, PartialEq, Eq, Structural)]
pub enum Outcome {
    /// Its page was fetched and held this many links.
    Visited { links: usize },
    Failed(FetchError),
    Skipped(SkipReason),
}

/// What a crawl came to.
pub struct CrawlResult {
    visited: Vec<Url>,
    urls: Vec<Url>,
    outcomes: Vec<Outcome>,
}

/// What a crawl result is.
pub struct ResultView {
    /// The URLs whose pages were fetched, in the order in which they came in.
    pub visited: Seq<UrlView>,
    /// Every URL with an outcome, in the order in which the outcomes came.
    pub urls: Seq<UrlView>,
    /// The outcome of each of `urls`.
    pub outcomes: Seq<Outcome>,
}

/// The URLs among the first `n` whose outcome is a visit, in order.
pub open spec fn visited_among(urls: Seq<UrlView>, outcomes: Seq<Outcome>, n: int) -> Seq<UrlView>
    decreases n,
{
    if n <= 0 {
        Seq::empty()
    } else if outcomes[n - 1] is Visited {
        visited_among(urls, outcomes, n - 1).push(urls[n - 1])
    } else {
        visited_among(urls, outcomes, n - 1)
    }
}

impl ResultView {
    /// The result of a crawl that has dealt with nothing.
    pub open spec fn empty() -> ResultView {
        ResultView { visited: Seq::empty(), urls: Seq::empty(), outcomes: Seq::empty() }
    }

    /// What every result satisfies: each URL has one outcome, and the
    /// visited URLs are those whose outcome is a visit.
    pub open spec fn wf(self) -> bool {
        &&& self.outcomes.len() == self.urls.len()
        &&& forall|i: int, j: int|
            0 <= i < j < self.urls.len() ==> #[trigger] self.urls[i] != #[trigger] self.urls[j]
        &&& self.visited == visited_among(self.urls, self.outcomes, self.urls.len() as int)
    }

    /// The outcome of `url`, if it has one.
    pub open spec fn outcome_of(self, url: UrlView) -> Option<Outcome> {
        if self.urls.contains(url) {
            Some(self.outcomes[self.urls.index_of(url)])
        } else {
            None
        }
    }

    /// The first outcome of a URL stands; a later one changes nothing.
    pub open spec fn record(self, url: UrlView, outcome: Outcome) -> ResultView {
        if self.urls.contains(url) {
            self
        } else {
            ResultView {
                visited: if outcome is Visited {
                    self.visited.push(url)
                } else {
                    self.visited
                },
                urls: self.urls.push(url),
                outcomes: self.outcomes.push(outcome),
            }
        }
    }
}

impl View for CrawlResult {
    type V = ResultView;

    closed spec fn view(&self) -> ResultView {
        ResultView {
            visited: self.visited@.map_values(|u: Url| u@),
            urls: self.urls@.map_values(|u: Url| u@),
            outcomes: self.outcomes@,
        }
    }
}

/// `a` is the beginning of `b`.
pub open spec fn is_prefix<T>(a: Seq<T>, b: Seq<T>) -> bool {
    a.len() <= b.len() && b.subrange(0, a.len() as int) == a
}

/// What the first `n` outcomes say does not depend on what follows them.
pub proof fn lemma_visited_among_push(
    urls: Seq<UrlView>,
    outcomes: Seq<Outcome>,
    url: UrlView,
    outcome: Outcome,
    n: int,
)
    requires
        0 <= n <= urls.len(),
        urls.len() == outcomes.len(),
    ensures
        visited_among(urls.push(url), outcomes.push(outcome), n) == visited_among(urls, outcomes, n),
    decreases n,
{
    if n > 0 {
        lemma_visited_among_push(urls, outcomes, url, outcome, n - 1);
    }
}

/// Recording keeps a result in order, and the visited URLs only grow at their end.
pub proof fn lemma_record(r: ResultView, url: UrlView, outcome: Outcome)
    requires
        r.wf(),
    ensures
        r.record(url, outcome).wf(),
        is_prefix(r.visited, r.record(url, outcome).visited),
        is_prefix(r.urls, r.record(url, outcome).urls),
{
    let after = r.record(url, outcome);
    if after != r {
        lemma_visited_among_push(r.urls, r.outcomes, url, outcome, r.urls.len() as int);
        assert(after.visited.subrange(0, r.visited.len() as int) == r.visited);
        assert(after.urls.subrange(0, r.urls.len() as int) == r.urls);
    } else {
        assert(r.visited.subrange(0, r.visited.len() as int) == r.visited);
        assert(r.urls.subrange(0, r.urls.len() as int) == r.urls);
    }
}

/// Every visited URL has a visit for its outcome.
pub proof fn lemma_visited_have_visits(urls: Seq<UrlView>, outcomes: Seq<Outcome>, n: int, k: int)
    requires
        0 <= n <= urls.len(),
        urls.len() == outcomes.len(),
        0 <= k < visited_among(urls, outcomes, n).len(),
    ensures
        exists|i: int|
            0 <= i < n && #[trigger] urls[i] == visited_among(urls, outcomes, n)[k]
                && outcomes[i] is Visited,
    decreases n,
{
    if n > 0 {
        let before = visited_among(urls, outcomes, n - 1);
        if outcomes[n - 1] is Visited && k == before.len() {
            assert(urls[n - 1] == visited_among(urls, outcomes, n)[k]);
        } else {
            lemma_visited_have_visits(urls, outcomes, n - 1, k);
        }
    }
}

impl CrawlResult {
    /// The result of a crawl that has dealt with nothing.
    pub fn new() -> (r: CrawlResult)
        ensures
            r@ == ResultView::empty(),
            r@.wf(),
    {
        let r = CrawlResult { visited: Vec::new(), urls: Vec::new(), outcomes: Vec::new() };
        assert(r@.visited =~= Seq::empty());
        assert(r@.urls =~= Seq::empty());
        r
    }

    fn position(&self, url: &Url) -> (r: Option<usize>)
        requires
            self@.wf(),
        ensures
            match r {
                Some(k) => k < self@.urls.len() && self@.urls.contains(url@)
                    && self@.urls.index_of(url@) == k,
                None => !self@.urls.contains(url@),
            },
    {
        let mut k: usize = 0;
        while k < self.urls.len()
            invariant
                self@.wf(),
                k <= self.urls@.len(),
                forall|m: int| 0 <= m < k ==> self@.urls[m] != url@,
            decreases self.urls@.len() - k,
        {
            if self.urls[k].same(url) {
                proof {
                    let found = self@.urls.index_of(url@);
                    assert(self@.urls[k as int] == url@);
                    assert(self@.urls[found] == url@);
                    if found < k {
                        assert(self@.urls[found] != self@.urls[k as int]);
                    } else if k < found {
                        assert(self@.urls[k as int] != self@.urls[found]);
                    }
                }
                return Some(k);
            }
            k += 1;
        }
        None
    }

    /// Notes what became of `url`, unless that was noted before.
    pub fn record(&mut self, url: &Url, outcome: Outcome)
        requires
            old(self)@.wf(),
        ensures
            final(self)@ == old(self)@.record(url@, outcome),
            final(self)@.wf(),
    {
        proof {
            lemma_record(self@, url@, outcome);
        }
        if self.position(url).is_some() {
            return ;
        }
        let ghost before = self@;
        match outcome {
            Outcome::Visited { .. } => {
                self.visited.push(url.clone());
                assert(self@.visited =~= before.visited.push(url@));
            },
            _ => {},
        }
        self.urls.push(url.clone());
        self.outcomes.push(outcome);
        assert(self@.urls =~= before.urls.push(url@));
    }

    /// What became of `url`.
    pub fn outcome_of(&self, url: &Url) -> (r: Option<Outcome>)
        requires
            self@.wf(),
        ensures
            r == self@.outcome_of(url@),
    {
        match self.position(url) {
            Some(k) => Some(self.outcomes[k]),
            None => None,
        }
    }

    /// The URLs whose pages were fetched, in the order in which they came in.
    pub fn visited(&self) -> (v: &Vec<Url>)
        ensures
            v@.map_values(|u: Url| u@) == self@.visited,
    {
        &self.visited
    }

    /// Every URL with an outcome, in the order in which the outcomes came.
    pub fn urls(&self) -> (v: &Vec<Url>)
        ensures
            v@.map_values(|u: Url| u@) == self@.urls,
    {
        &self.urls
    }

    /// The outcomes, each at the place of its URL in `urls`.
    pub fn outcomes(&self) -> (v: &Vec<Outcome>)
        ensures
            v@ == self@.outcomes,
    {
        &self.outcomes
    }
}

} // verus!
