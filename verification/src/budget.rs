//! The budget tracker: a cap on the number of pages fetched under each path
//! pattern. The longest pattern that is a prefix of a URL's path governs
//! it; the pattern `*` governs what no other pattern does.

use crate::text::{copy, has_prefix, same, starts_with};
use crate::url::{Url, UrlView};
use vstd::prelude::*;

verus! {

/// The byte `*`.
pub const STAR: u8 = 42;

/// One configured cap: at most `limit` pages under `pattern`.
pub struct Limit {
    pub pattern: Vec<u8>,
    pub limit: u32,
}

/// What a cap is.
pub struct LimitView {
    pub pattern: Seq<u8>,
    pub limit: u32,
}

impl View for Limit {
    type V = LimitView;

    open spec fn view(&self) -> LimitView {
        LimitView { pattern: self.pattern@, limit: self.limit }
    }
}

/// Counts the pages fetched under each pattern against its cap, each URL once.
pub struct BudgetTracker {
    patterns: Vec<Vec<u8>>,
    limits: Vec<u32>,
    remaining: Vec<u32>,
    charged: Vec<Url>,
}

/// The tracker's state: for each pattern its cap and what is left of it,
/// and the URLs that have been counted, in the order in which they were.
pub struct BudgetView {
    pub patterns: Seq<Seq<u8>>,
    pub limits: Seq<u32>,
    pub remaining: Seq<u32>,
    pub charged: Seq<UrlView>,
}

/// The pattern that stands for every path.
pub open spec fn is_default(pattern: Seq<u8>) -> bool {
    pattern == seq![STAR]
}

/// The pattern covers the path: it is the default or a prefix of the path.
pub open spec fn applies(pattern: Seq<u8>, path: Seq<u8>) -> bool {
    is_default(pattern) || starts_with(path, pattern)
}

/// How specific a pattern is: its length, with the default below all others.
pub open spec fn rank(pattern: Seq<u8>) -> int {
    if is_default(pattern) {
        -1
    } else {
        pattern.len() as int
    }
}

/// Among the first `n` patterns, the first of the most specific ones that cover `path`.
pub open spec fn governing_among(patterns: Seq<Seq<u8>>, path: Seq<u8>, n: int) -> Option<int>
    decreases n,
{
    if n <= 0 {
        None
    } else {
        let before = governing_among(patterns, path, n - 1);
        if applies(patterns[n - 1], path) && (before is None || rank(patterns[n - 1]) > rank(
            patterns[before.unwrap()],
        )) {
            Some(n - 1)
        } else {
            before
        }
    }
}

/// The pattern that governs `path`, if any does.
pub open spec fn governing(patterns: Seq<Seq<u8>>, path: Seq<u8>) -> Option<int> {
    governing_among(patterns, path, patterns.len() as int)
}

/// How many of the counted URLs were counted against pattern `j`.
pub open spec fn spent(charged: Seq<UrlView>, patterns: Seq<Seq<u8>>, j: int) -> nat
    decreases charged.len(),
{
    if charged.len() == 0 {
        0
    } else {
        let rest = spent(charged.drop_last(), patterns, j);
        if governing(patterns, charged.last().path) == Some(j) {
            rest + 1
        } else {
            rest
        }
    }
}

/// No pattern occurs twice.
pub open spec fn distinct_patterns(patterns: Seq<Seq<u8>>) -> bool {
    forall|i: int, j: int|
        0 <= i < j < patterns.len() ==> #[trigger] patterns[i] != #[trigger] patterns[j]
}

/// The tracker that a list of caps sets up: of two caps for one pattern the last counts.
pub open spec fn initial_budget(limits: Seq<LimitView>) -> BudgetView
    decreases limits.len(),
{
    if limits.len() == 0 {
        BudgetView {
            patterns: Seq::empty(),
            limits: Seq::empty(),
            remaining: Seq::empty(),
            charged: Seq::empty(),
        }
    } else {
        let before = initial_budget(limits.drop_last());
        let last = limits.last();
        if before.patterns.contains(last.pattern) {
            let k = before.patterns.index_of(last.pattern);
            BudgetView {
                patterns: before.patterns,
                limits: before.limits.update(k, last.limit),
                remaining: before.remaining.update(k, last.limit),
                charged: before.charged,
            }
        } else {
            BudgetView {
                patterns: before.patterns.push(last.pattern),
                limits: before.limits.push(last.limit),
                remaining: before.remaining.push(last.limit),
                charged: before.charged,
            }
        }
    }
}

impl BudgetView {
    /// What every tracker satisfies: what is left of a cap and what
    /// was counted against it add up to the cap.
    pub open spec fn wf(self) -> bool {
        &&& self.limits.len() == self.patterns.len()
        &&& self.remaining.len() == self.patterns.len()
        &&& distinct_patterns(self.patterns)
        &&& forall|j: int|
            0 <= j < self.patterns.len() ==> #[trigger] self.remaining[j] + spent(
                self.charged,
                self.patterns,
                j,
            ) == self.limits[j]
    }

    /// What is left of the cap on `pattern`, if it is configured.
    pub open spec fn left(self, pattern: Seq<u8>) -> Option<u32> {
        if self.patterns.contains(pattern) {
            Some(self.remaining[self.patterns.index_of(pattern)])
        } else {
            None
        }
    }

    /// The state after a request to count `url`, and the answer to it. A
    /// URL that was counted before is let through again at no charge. One
    /// that no pattern governs is let through uncounted. Otherwise the
    /// governing pattern pays one visit, if it has one left.
    pub open spec fn consume(self, url: UrlView) -> (BudgetView, bool) {
        if self.charged.contains(url) {
            (self, true)
        } else {
            match governing(self.patterns, url.path) {
                None => (self, true),
                Some(j) => if self.remaining[j] > 0 {
                    (
                        BudgetView {
                            patterns: self.patterns,
                            limits: self.limits,
                            remaining: self.remaining.update(j, (self.remaining[j] - 1) as u32),
                            charged: self.charged.push(url),
                        },
                        true,
                    )
                } else {
                    (self, false)
                },
            }
        }
    }
}

impl View for BudgetTracker {
    type V = BudgetView;

    closed spec fn view(&self) -> BudgetView {
        BudgetView {
            patterns: self.patterns@.map_values(|p: Vec<u8>| p@),
            limits: self.limits@,
            remaining: self.remaining@,
            charged: self.charged@.map_values(|u: Url| u@),
        }
    }
}

/// The governing pattern covers the path, and no pattern that covers it is
/// more specific; where none governs, none covers the path.
pub proof fn lemma_governing_is_most_specific(patterns: Seq<Seq<u8>>, path: Seq<u8>, n: int)
    requires
        0 <= n <= patterns.len(),
    ensures
        match governing_among(patterns, path, n) {
            Some(j) => 0 <= j < n && applies(patterns[j], path) && forall|k: int|
                0 <= k < n && applies(#[trigger] patterns[k], path) ==> rank(patterns[k]) <= rank(
                    patterns[j],
                ),
            None => forall|k: int| 0 <= k < n ==> !applies(#[trigger] patterns[k], path),
        },
    decreases n,
{
    if n > 0 {
        lemma_governing_is_most_specific(patterns, path, n - 1);
    }
}

/// Where a default pattern is configured and no other pattern is a prefix
/// of the path, the default governs it.
pub proof fn lemma_default_absorbs(patterns: Seq<Seq<u8>>, path: Seq<u8>, d: int)
    requires
        distinct_patterns(patterns),
        0 <= d < patterns.len(),
        is_default(patterns[d]),
        forall|k: int| 0 <= k < patterns.len() && k != d ==> !starts_with(path, patterns[k]),
    ensures
        governing(patterns, path) == Some(d),
{
    lemma_governing_is_most_specific(patterns, path, patterns.len() as int);
    let g = governing(patterns, path);
    assert(applies(patterns[d], path));
    if g != Some(d) {
        let j = g.unwrap();
        assert(applies(patterns[j], path));
        if j < d {
            assert(patterns[j] != patterns[d]);
        } else {
            assert(patterns[d] != patterns[j]);
        }
    }
}

/// Counting one more URL adds one to what its governing pattern has spent, and to no other.
pub proof fn lemma_spent_push(charged: Seq<UrlView>, patterns: Seq<Seq<u8>>, url: UrlView, j: int)
    ensures
        spent(charged.push(url), patterns, j) == spent(charged, patterns, j) + (if governing(
            patterns,
            url.path,
        ) == Some(j) {
            1nat
        } else {
            0nat
        }),
{
    assert(charged.push(url).drop_last() == charged);
}

/// No pattern has ever had more counted against it than its cap.
pub proof fn lemma_spent_within_limit(b: BudgetView, j: int)
    requires
        b.wf(),
        0 <= j < b.patterns.len(),
    ensures
        spent(b.charged, b.patterns, j) <= b.limits[j],
        spent(b.charged, b.patterns, j) == b.limits[j] - b.remaining[j],
{
    assert(b.remaining[j] + spent(b.charged, b.patterns, j) == b.limits[j]);
}

/// A tracker that was just set up has its accounts in order, with every cap untouched.
pub proof fn lemma_initial_budget(limits: Seq<LimitView>)
    ensures
        initial_budget(limits).wf(),
        initial_budget(limits).charged.len() == 0,
        initial_budget(limits).remaining == initial_budget(limits).limits,
    decreases limits.len(),
{
    if limits.len() > 0 {
        lemma_initial_budget(limits.drop_last());
        let before = initial_budget(limits.drop_last());
        let after = initial_budget(limits);
        assert(before.charged =~= Seq::empty());
        if before.patterns.contains(limits.last().pattern) {
            let k = before.patterns.index_of(limits.last().pattern);
            assert(before.patterns[k] == limits.last().pattern);
        }
        assert forall|j: int| 0 <= j < after.patterns.len() implies #[trigger] after.remaining[j]
            + spent(after.charged, after.patterns, j) == after.limits[j] by {
            assert(spent(after.charged, after.patterns, j) == 0);
        }
    }
}

/// Counting a URL keeps the tracker's accounts in order.
pub proof fn lemma_consume_keeps_wf(b: BudgetView, url: UrlView)
    requires
        b.wf(),
    ensures
        b.consume(url).0.wf(),
{
    let after = b.consume(url).0;
    if after != b {
        let g = governing(b.patterns, url.path).unwrap();
        lemma_governing_is_most_specific(b.patterns, url.path, b.patterns.len() as int);
        assert forall|j: int| 0 <= j < after.patterns.len() implies #[trigger] after.remaining[j]
            + spent(after.charged, after.patterns, j) == after.limits[j] by {
            lemma_spent_push(b.charged, b.patterns, url, j);
            assert(b.remaining[j] + spent(b.charged, b.patterns, j) == b.limits[j]);
        }
    }
}

/// A second request for the same URL changes nothing and is let through
/// exactly when the first was: no URL is charged twice.
pub proof fn lemma_consume_twice(b: BudgetView, url: UrlView)
    requires
        b.wf(),
    ensures
        b.consume(url).0.consume(url).0 == b.consume(url).0,
        b.consume(url).0.consume(url).1 == b.consume(url).1,
{
    let after = b.consume(url).0;
    if after != b {
        assert(after.charged.last() == url);
        assert(after.charged.contains(url));
    } else if !b.charged.contains(url) {
    }
}

fn is_star(pattern: &[u8]) -> (r: bool)
    ensures
        r == is_default(pattern@),
{
    let r = pattern.len() == 1 && pattern[0] == STAR;
    proof {
        if r {
            assert(pattern@ =~= seq![STAR]);
        } else if is_default(pattern@) {
            assert(seq![STAR].len() == 1);
            assert(seq![STAR][0] == STAR);
        }
    }
    r
}

fn covers(pattern: &[u8], path: &[u8]) -> (r: bool)
    ensures
        r == applies(pattern@, path@),
{
    is_star(pattern) || has_prefix(path, pattern)
}

fn outranks(a: &[u8], b: &[u8]) -> (r: bool)
    ensures
        r == (rank(a@) > rank(b@)),
{
    if is_star(a) {
        false
    } else if is_star(b) {
        true
    } else {
        a.len() > b.len()
    }
}

impl BudgetTracker {
    /// A tracker with the given caps and nothing counted yet.
    pub fn new(limits: &Vec<Limit>) -> (b: BudgetTracker)
        ensures
            b@ == initial_budget(limits@.map_values(|l: Limit| l@)),
            b@.wf(),
            b@.charged.len() == 0,
    {
        let ghost all = limits@.map_values(|l: Limit| l@);
        let mut b = BudgetTracker {
            patterns: Vec::new(),
            limits: Vec::new(),
            remaining: Vec::new(),
            charged: Vec::new(),
        };
        assert(b@.patterns =~= Seq::empty());
        assert(b@.charged =~= Seq::empty());
        assert(all.subrange(0, 0) =~= Seq::empty());
        let mut i: usize = 0;
        while i < limits.len()
            invariant
                i <= limits@.len(),
                all == limits@.map_values(|l: Limit| l@),
                b@ == initial_budget(all.subrange(0, i as int)),
                b@.wf(),
                b@.charged.len() == 0,
            decreases limits@.len() - i,
        {
            let ghost before = b@;
            let ghost upto = all.subrange(0, i + 1);
            assert(upto.drop_last() == all.subrange(0, i as int));
            assert(upto.last() == limits@[i as int]@);
            let entry = &limits[i];
            match b.position(entry.pattern.as_slice()) {
                Some(k) => {
                    proof {
                        let found = before.patterns.index_of(entry.pattern@);
                        assert(before.patterns[found] == entry.pattern@);
                        if found < k {
                            assert(before.patterns[found] != before.patterns[k as int]);
                        } else if k < found {
                            assert(before.patterns[k as int] != before.patterns[found]);
                        }
                    }
                    b.limits.set(k, entry.limit);
                    b.remaining.set(k, entry.limit);
                    assert(b@.patterns == before.patterns);
                },
                None => {
                    b.patterns.push(copy(entry.pattern.as_slice()));
                    b.limits.push(entry.limit);
                    b.remaining.push(entry.limit);
                    assert(b@.patterns =~= before.patterns.push(entry.pattern@));
                },
            }
            proof {
                assert(b@.charged =~= Seq::empty());
                assert forall|j: int| 0 <= j < b@.patterns.len() implies spent(
                    b@.charged,
                    b@.patterns,
                    j,
                ) == 0 by {}
            }
            i += 1;
        }
        assert(all.subrange(0, all.len() as int) == all);
        b
    }

    /// Where `pattern` stands among the configured patterns.
    fn position(&self, pattern: &[u8]) -> (r: Option<usize>)
        ensures
            match r {
                Some(k) => k < self@.patterns.len() && self@.patterns[k as int] == pattern@,
                None => !self@.patterns.contains(pattern@),
            },
    {
        let mut k: usize = 0;
        while k < self.patterns.len()
            invariant
                k <= self.patterns@.len(),
                forall|m: int| 0 <= m < k ==> self@.patterns[m] != pattern@,
            decreases self.patterns@.len() - k,
        {
            if same(self.patterns[k].as_slice(), pattern) {
                return Some(k);
            }
            k += 1;
        }
        None
    }

    /// The pattern that governs `path`.
    fn governing_pattern(&self, path: &[u8]) -> (r: Option<usize>)
        ensures
            match r {
                Some(j) => governing(self@.patterns, path@) == Some(j as int),
                None => governing(self@.patterns, path@) is None,
            },
    {
        let mut best: Option<usize> = None;
        let mut n: usize = 0;
        while n < self.patterns.len()
            invariant
                n <= self.patterns@.len(),
                match best {
                    Some(j) => j < n && governing_among(self@.patterns, path@, n as int) == Some(
                        j as int,
                    ),
                    None => governing_among(self@.patterns, path@, n as int) is None,
                },
            decreases self.patterns@.len() - n,
        {
            let pattern = self.patterns[n].as_slice();
            assert(pattern@ == self@.patterns[n as int]);
            if covers(pattern, path) {
                let better = match best {
                    None => true,
                    Some(j) => {
                        assert(self.patterns@[j as int]@ == self@.patterns[j as int]);
                        outranks(pattern, self.patterns[j].as_slice())
                    },
                };
                if better {
                    best = Some(n);
                }
            }
            n += 1;
        }
        best
    }

    /// Whether `url` has been counted.
    fn has_charged(&self, url: &Url) -> (r: bool)
        ensures
            r == self@.charged.contains(url@),
    {
        let mut k: usize = 0;
        while k < self.charged.len()
            invariant
                k <= self.charged@.len(),
                forall|m: int| 0 <= m < k ==> self@.charged[m] != url@,
            decreases self.charged@.len() - k,
        {
            if self.charged[k].same(url) {
                assert(self@.charged[k as int] == url@);
                return true;
            }
            k += 1;
        }
        false
    }

    /// Asks for one visit of `url`. The answer is `true` where the visit
    /// may go ahead; see `BudgetView::consume`.
    pub fn try_consume(&mut self, url: &Url) -> (granted: bool)
        requires
            old(self)@.wf(),
        ensures
            (final(self)@, granted) == old(self)@.consume(url@),
            final(self)@.wf(),
    {
        proof {
            lemma_consume_keeps_wf(self@, url@);
        }
        if self.has_charged(url) {
            return true;
        }
        match self.governing_pattern(url.path()) {
            None => true,
            Some(j) => {
                proof {
                    lemma_governing_is_most_specific(
                        self@.patterns,
                        url@.path,
                        self@.patterns.len() as int,
                    );
                }
                let left = self.remaining[j];
                if left > 0 {
                    let ghost before = self@;
                    self.remaining.set(j, left - 1);
                    self.charged.push(url.clone());
                    proof {
                        assert(self@.charged =~= before.charged.push(url@));
                        assert(self@.patterns == before.patterns);
                    }
                    true
                } else {
                    false
                }
            },
        }
    }

    /// What is left of the cap on `pattern`, if it is configured.
    pub fn remaining(&self, pattern: &[u8]) -> (r: Option<u32>)
        requires
            self@.wf(),
        ensures
            r == self@.left(pattern@),
    {
        match self.position(pattern) {
            Some(k) => {
                proof {
                    let found = self@.patterns.index_of(pattern@);
                    assert(self@.patterns[found] == pattern@);
                    if found < k {
                        assert(self@.patterns[found] != self@.patterns[k as int]);
                    } else if k < found {
                        assert(self@.patterns[k as int] != self@.patterns[found]);
                    }
                }
                Some(self.remaining[k])
            },
            None => None,
        }
    }
}

} // verus!
