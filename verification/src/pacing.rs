//! Pacing: for each origin, the time from which the next request to it may
//! start. Origins are paced apart from each other, so that requests to one
//! never hold back requests to another.

use crate::url::{Origin, OriginView};
use vstd::prelude::*;

verus! {

/// When each origin may be asked again.
pub struct Pacing {
    origins: Vec<Origin>,
    free_at: Vec<u64>,
}

/// What the pacing is.
pub struct PacingView {
    pub origins: Seq<OriginView>,
    /// For each of `origins`, when its next request may start, in milliseconds.
    pub free_at: Seq<u64>,
}

/// The later of two times.
pub open spec fn later(a: u64, b: u64) -> u64 {
    if a >= b {
        a
    } else {
        b
    }
}

/// `start + delay`, or the greatest time there is where that is beyond it.
pub open spec fn after(start: u64, delay: u64) -> u64 {
    if start + delay > u64::MAX {
        u64::MAX
    } else {
        (start + delay) as u64
    }
}

impl PacingView {
    /// The pacing before any request.
    pub open spec fn empty() -> PacingView {
        PacingView { origins: Seq::empty(), free_at: Seq::empty() }
    }

    /// What every pacing satisfies: one time for each origin, no origin twice.
    pub open spec fn wf(self) -> bool {
        &&& self.free_at.len() == self.origins.len()
        &&& forall|i: int, j: int|
            0 <= i < j < self.origins.len() ==> #[trigger] self.origins[i]
                != #[trigger] self.origins[j]
    }

    /// When the next request to `origin` may start; at once, if none was made.
    pub open spec fn free_from(self, origin: OriginView) -> u64 {
        if self.origins.contains(origin) {
            self.free_at[self.origins.index_of(origin)]
        } else {
            0
        }
    }

    /// A request to `origin` asked for at `now` starts at `now` or when
    /// the origin is free, whichever is later, and keeps the origin busy
    /// for `delay` from then.
    pub open spec fn reserve(self, origin: OriginView, now: u64, delay: u64) -> (PacingView, u64) {
        let start = later(now, self.free_from(origin));
        let next = after(start, delay);
        if self.origins.contains(origin) {
            (
                PacingView {
                    origins: self.origins,
                    free_at: self.free_at.update(self.origins.index_of(origin), next),
                },
                start,
            )
        } else {
            (
                PacingView {
                    origins: self.origins.push(origin),
                    free_at: self.free_at.push(next),
                },
                start,
            )
        }
    }
}

impl View for Pacing {
    type V = PacingView;

    closed spec fn view(&self) -> PacingView {
        PacingView { origins: self.origins@.map_values(|o: Origin| o@), free_at: self.free_at@ }
    }
}

/// Where an origin stands in a well-formed pacing is the one place that holds it.
pub proof fn lemma_pacing_position(p: PacingView, origin: OriginView, k: int)
    requires
        p.wf(),
        0 <= k < p.origins.len(),
        p.origins[k] == origin,
    ensures
        p.origins.contains(origin),
        p.origins.index_of(origin) == k,
{
    let found = p.origins.index_of(origin);
    assert(p.origins[found] == origin);
    if found < k {
        assert(p.origins[found] != p.origins[k]);
    } else if k < found {
        assert(p.origins[k] != p.origins[found]);
    }
}

/// Two requests to one origin start at least the delay apart, and in the
/// order in which they were asked for; a request to another origin in
/// between changes nothing of that.
pub proof fn lemma_requests_are_spaced(
    p: PacingView,
    origin: OriginView,
    other: OriginView,
    first: u64,
    between: u64,
    second: u64,
    delay: u64,
)
    requires
        p.wf(),
        other != origin,
    ensures
        ({
            let one = p.reserve(origin, first, delay);
            let two = one.0.reserve(other, between, delay).0.reserve(origin, second, delay);
            &&& two.1 >= after(one.1, delay)
            &&& two.1 >= second
            &&& one.1 >= first
            &&& two.0.wf()
        }),
{
    let one = p.reserve(origin, first, delay);
    lemma_reserve(p, origin, first, delay);
    let mid = one.0.reserve(other, between, delay).0;
    lemma_reserve(one.0, other, between, delay);
    lemma_reserve(mid, origin, second, delay);
    let k = one.0.origins.index_of(origin);
    assert(one.0.origins[k] == origin);
    assert(mid.origins[k] == origin);
    lemma_pacing_position(mid, origin, k);
    if one.0.origins.contains(other) {
        let m = one.0.origins.index_of(other);
        assert(one.0.origins[m] == other);
    }
}

/// A reservation keeps the books in order and is remembered.
pub proof fn lemma_reserve(p: PacingView, origin: OriginView, now: u64, delay: u64)
    requires
        p.wf(),
    ensures
        p.reserve(origin, now, delay).0.wf(),
        p.reserve(origin, now, delay).0.origins.contains(origin),
        p.reserve(origin, now, delay).0.free_from(origin) == after(p.reserve(origin, now, delay).1, delay),
        p.reserve(origin, now, delay).1 >= now,
        p.reserve(origin, now, delay).1 >= p.free_from(origin),
{
    let q = p.reserve(origin, now, delay).0;
    if p.origins.contains(origin) {
        let k = p.origins.index_of(origin);
        assert(p.origins[k] == origin);
        assert(q.origins[k] == origin);
        lemma_pacing_position(q, origin, k);
    } else {
        let k = p.origins.len() as int;
        assert(q.origins[k] == origin);
        lemma_pacing_position(q, origin, k);
    }
}

impl Pacing {
    /// The pacing before any request.
    pub fn new() -> (p: Pacing)
        ensures
            p@ == PacingView::empty(),
            p@.wf(),
    {
        let p = Pacing { origins: Vec::new(), free_at: Vec::new() };
        assert(p@.origins =~= Seq::empty());
        p
    }

    fn position(&self, origin: &Origin) -> (r: Option<usize>)
        requires
            self@.wf(),
        ensures
            match r {
                Some(k) => k < self@.origins.len() && self@.origins.contains(origin@)
                    && self@.origins.index_of(origin@) == k,
                None => !self@.origins.contains(origin@),
            },
    {
        let mut k: usize = 0;
        while k < self.origins.len()
            invariant
                self@.wf(),
                k <= self.origins@.len(),
                forall|m: int| 0 <= m < k ==> self@.origins[m] != origin@,
            decreases self.origins@.len() - k,
        {
            if self.origins[k].same(origin) {
                proof {
                    lemma_pacing_position(self@, origin@, k as int);
                }
                return Some(k);
            }
            k += 1;
        }
        None
    }

    /// When the next request to `origin` may start.
    pub fn free_from(&self, origin: &Origin) -> (t: u64)
        requires
            self@.wf(),
        ensures
            t == self@.free_from(origin@),
    {
        match self.position(origin) {
            Some(k) => self.free_at[k],
            None => 0,
        }
    }

    /// Books a request to `origin`, asked for at `now`, and says when it may start.
    pub fn reserve(&mut self, origin: &Origin, now: u64, delay: u64) -> (start: u64)
        requires
            old(self)@.wf(),
        ensures
            (final(self)@, start) == old(self)@.reserve(origin@, now, delay),
            final(self)@.wf(),
    {
        proof {
            lemma_reserve(self@, origin@, now, delay);
        }
        let ghost before = self@;
        match self.position(origin) {
            Some(k) => {
                let free = self.free_at[k];
                let start = if now >= free {
                    now
                } else {
                    free
                };
                let next = start.saturating_add(delay);
                self.free_at.set(k, next);
                assert(self@.origins == before.origins);
                start
            },
            None => {
                let next = now.saturating_add(delay);
                self.origins.push(origin.clone());
                self.free_at.push(next);
                assert(self@.origins =~= before.origins.push(origin@));
                now
            },
        }
    }
}

} // verus!
