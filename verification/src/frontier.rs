//! The frontier: the URLs that wait to be visited, first come first served,
//! and the set of every URL seen so far, which keeps any URL from waiting
//! twice. It counts the URLs that were taken and are not yet finished, and
//! closes itself once nothing waits and nothing is under way.

use crate::url::{Url, UrlView};
use std::collections::VecDeque;
use vstd::prelude::*;

verus! {

/// A URL that waits, with how far from the seed it was found and on which page.
pub struct FrontierEntry {
    pub url: Url,
    pub depth: u32,
    pub parent: Option<Url>,
}

/// What a waiting URL is.
pub struct EntryView {
    pub url: UrlView,
    pub depth: u32,
    pub parent: Option<UrlView>,
}

impl View for FrontierEntry {
    type V = EntryView;

    open spec fn view(&self) -> EntryView {
        EntryView {
            url: self.url@,
            depth: self.depth,
            parent: match self.parent {
                Some(p) => Some(p@),
                None => None,
            },
        }
    }
}

/// What `take` hands out.
pub enum Taken {
    /// The URL that waited longest; it now counts as under way.
    Entry(FrontierEntry),
    /// Nothing waits, but pages under way may still bring more.
    Pending,
    /// The frontier is closed: there is no more work.
    Drained,
}

/// What `take` hands out, as contracts speak of it.
pub enum TakenView {
    Entry(EntryView),
    Pending,
    Drained,
}

impl View for Taken {
    type V = TakenView;

    open spec fn view(&self) -> TakenView {
        match self {
            Taken::Entry(e) => TakenView::Entry(e@),
            Taken::Pending => TakenView::Pending,
            Taken::Drained => TakenView::Drained,
        }
    }
}

/// The URLs that wait and the URLs that were seen.
pub struct Frontier {
    seen: Vec<Url>,
    queue: VecDeque<FrontierEntry>,
    in_flight: usize,
    closed: bool,
}

/// What a frontier is.
pub struct FrontierView {
    /// Every URL ever accepted or noted, in that order.
    pub seen: Seq<UrlView>,
    /// The URLs that wait, the next one first.
    pub queue: Seq<EntryView>,
    /// How many URLs were taken and are not finished.
    pub in_flight: nat,
    pub closed: bool,
}

impl FrontierView {
    /// The frontier that has seen nothing.
    pub open spec fn empty() -> FrontierView {
        FrontierView { seen: Seq::empty(), queue: Seq::empty(), in_flight: 0, closed: false }
    }

    /// What every frontier satisfies: no URL was seen twice, what waits
    /// was seen, and what waits or is under way is no more than was seen.
    pub open spec fn wf(self) -> bool {
        &&& forall|i: int, j: int|
            0 <= i < j < self.seen.len() ==> #[trigger] self.seen[i] != #[trigger] self.seen[j]
        &&& forall|k: int|
            0 <= k < self.queue.len() ==> self.seen.contains(#[trigger] self.queue[k].url)
        &&& self.queue.len() + self.in_flight <= self.seen.len()
    }

    /// Nothing waits and nothing is under way.
    pub open spec fn quiet(self) -> bool {
        self.queue.len() == 0 && self.in_flight == 0
    }

    /// A URL that was seen before, or any URL once the frontier is
    /// closed, changes nothing. A new one is seen from now on and waits
    /// behind all that wait already.
    pub open spec fn offer(self, entry: EntryView) -> FrontierView {
        if self.closed || self.seen.contains(entry.url) {
            self
        } else {
            FrontierView {
                seen: self.seen.push(entry.url),
                queue: self.queue.push(entry),
                in_flight: self.in_flight,
                closed: self.closed,
            }
        }
    }

    /// `offer` without the waiting: the URL counts as seen and is never handed out.
    pub open spec fn note(self, url: UrlView) -> FrontierView {
        if self.closed || self.seen.contains(url) {
            self
        } else {
            FrontierView {
                seen: self.seen.push(url),
                queue: self.queue,
                in_flight: self.in_flight,
                closed: self.closed,
            }
        }
    }

    /// A closed frontier hands out nothing. An open one hands out its
    /// first entry; with none waiting it closes if nothing is under way
    /// and asks the taker to wait otherwise.
    pub open spec fn take(self) -> (FrontierView, TakenView) {
        if self.closed {
            (self, TakenView::Drained)
        } else if self.queue.len() > 0 {
            (
                FrontierView {
                    seen: self.seen,
                    queue: self.queue.subrange(1, self.queue.len() as int),
                    in_flight: self.in_flight + 1,
                    closed: false,
                },
                TakenView::Entry(self.queue[0]),
            )
        } else if self.in_flight == 0 {
            (self.close(), TakenView::Drained)
        } else {
            (self, TakenView::Pending)
        }
    }

    /// One URL under way is done; the frontier closes if that leaves it quiet.
    pub open spec fn finish(self) -> FrontierView {
        if self.in_flight == 0 {
            self
        } else {
            FrontierView {
                seen: self.seen,
                queue: self.queue,
                in_flight: (self.in_flight - 1) as nat,
                closed: self.closed || (self.in_flight == 1 && self.queue.len() == 0),
            }
        }
    }

    /// The frontier with nothing more to give.
    pub open spec fn close(self) -> FrontierView {
        FrontierView {
            seen: self.seen,
            queue: self.queue,
            in_flight: self.in_flight,
            closed: true,
        }
    }
}

impl View for Frontier {
    type V = FrontierView;

    closed spec fn view(&self) -> FrontierView {
        FrontierView {
            seen: self.seen@.map_values(|u: Url| u@),
            queue: self.queue@.map_values(|e: FrontierEntry| e@),
            in_flight: self.in_flight as nat,
            closed: self.closed,
        }
    }
}

/// Offering a URL a second time, from whatever page, changes nothing.
pub proof fn lemma_second_offer_is_noop(f: FrontierView, first: EntryView, second: EntryView)
    requires
        first.url == second.url,
    ensures
        f.offer(first).offer(second) == f.offer(first),
{
    let g = f.offer(first);
    if g != f {
        assert(g.seen.last() == first.url);
        assert(g.seen.contains(second.url));
    }
}

/// An offer adds at most one URL to the set of seen URLs, and none if the URL is in it.
pub proof fn lemma_offer_grows_seen_by_one(f: FrontierView, entry: EntryView)
    ensures
        f.seen.len() <= f.offer(entry).seen.len() <= f.seen.len() + 1,
        f.seen.contains(entry.url) ==> f.offer(entry) == f,
        f.offer(entry).seen.len() == f.seen.len() + 1 ==> !f.seen.contains(entry.url),
{
}

/// An offer leaves a frontier in order.
pub proof fn lemma_offer_keeps_wf(f: FrontierView, entry: EntryView)
    requires
        f.wf(),
    ensures
        f.offer(entry).wf(),
{
    let g = f.offer(entry);
    if g != f {
        assert forall|k: int| 0 <= k < g.queue.len() implies g.seen.contains(
            #[trigger] g.queue[k].url,
        ) by {
            if k < f.queue.len() {
                let at = choose|m: int| 0 <= m < f.seen.len() && f.seen[m] == f.queue[k].url;
                assert(g.seen[at] == g.queue[k].url);
            } else {
                assert(g.seen[f.seen.len() as int] == entry.url);
            }
        }
    }
}

/// A note leaves a frontier in order.
pub proof fn lemma_note_keeps_wf(f: FrontierView, url: UrlView)
    requires
        f.wf(),
    ensures
        f.note(url).wf(),
{
    let g = f.note(url);
    if g != f {
        assert forall|k: int| 0 <= k < g.queue.len() implies g.seen.contains(
            #[trigger] g.queue[k].url,
        ) by {
            let at = choose|m: int| 0 <= m < f.seen.len() && f.seen[m] == f.queue[k].url;
            assert(g.seen[at] == g.queue[k].url);
        }
    }
}

/// A take leaves a frontier in order.
pub proof fn lemma_take_keeps_wf(f: FrontierView)
    requires
        f.wf(),
    ensures
        f.take().0.wf(),
{
    let g = f.take().0;
    assert forall|k: int| 0 <= k < g.queue.len() implies g.seen.contains(
        #[trigger] g.queue[k].url,
    ) by {
        if g.queue != f.queue {
            assert(g.queue[k] == f.queue[k + 1]);
        }
    }
}

/// Once closed, a frontier stays closed and hands out nothing.
pub proof fn lemma_closed_is_final(f: FrontierView, entry: EntryView)
    requires
        f.closed,
    ensures
        f.take() == (f, TakenView::Drained),
        f.offer(entry) == f,
        f.note(entry.url) == f,
        f.finish().closed,
{
}

impl Frontier {
    /// A frontier that has seen nothing.
    pub fn new() -> (f: Frontier)
        ensures
            f@ == FrontierView::empty(),
            f@.wf(),
    {
        let f = Frontier { seen: Vec::new(), queue: VecDeque::new(), in_flight: 0, closed: false };
        assert(f@.seen =~= Seq::empty());
        assert(f@.queue =~= Seq::empty());
        f
    }

    /// Whether `url` was accepted or noted before.
    pub fn has_seen(&self, url: &Url) -> (r: bool)
        ensures
            r == self@.seen.contains(url@),
    {
        let mut k: usize = 0;
        while k < self.seen.len()
            invariant
                k <= self.seen@.len(),
                forall|m: int| 0 <= m < k ==> self@.seen[m] != url@,
            decreases self.seen@.len() - k,
        {
            if self.seen[k].same(url) {
                assert(self@.seen[k as int] == url@);
                return true;
            }
            k += 1;
        }
        false
    }

    /// Offers a URL for a visit. The answer says whether it now waits.
    pub fn offer(&mut self, entry: FrontierEntry) -> (accepted: bool)
        requires
            old(self)@.wf(),
        ensures
            final(self)@ == old(self)@.offer(entry@),
            accepted == (!old(self)@.closed && !old(self)@.seen.contains(entry@.url)),
            final(self)@.wf(),
    {
        proof {
            lemma_offer_keeps_wf(self@, entry@);
        }
        if self.closed || self.has_seen(&entry.url) {
            return false;
        }
        let ghost before = self@;
        self.seen.push(entry.url.clone());
        self.queue.push_back(entry);
        proof {
            assert(self@.seen =~= before.seen.push(entry@.url));
            assert(self@.queue =~= before.queue.push(entry@));
        }
        true
    }

    /// Records a URL as seen without letting it wait. The answer says whether it was new.
    pub fn note(&mut self, url: &Url) -> (fresh: bool)
        requires
            old(self)@.wf(),
        ensures
            final(self)@ == old(self)@.note(url@),
            fresh == (!old(self)@.closed && !old(self)@.seen.contains(url@)),
            final(self)@.wf(),
    {
        proof {
            lemma_note_keeps_wf(self@, url@);
        }
        if self.closed || self.has_seen(url) {
            return false;
        }
        let ghost before = self@;
        self.seen.push(url.clone());
        proof {
            assert(self@.seen =~= before.seen.push(url@));
        }
        true
    }

    /// The URL that waits longest, left where it is.
    pub fn peek(&self) -> (e: Option<&FrontierEntry>)
        ensures
            match e {
                Some(entry) => self@.queue.len() > 0 && entry@ == self@.queue[0],
                None => self@.queue.len() == 0,
            },
    {
        if self.queue.len() > 0 {
            Some(&self.queue[0])
        } else {
            None
        }
    }

    /// Hands out the URL that waited longest, if the frontier has one to give.
    pub fn take(&mut self) -> (taken: Taken)
        requires
            old(self)@.wf(),
        ensures
            (final(self)@, taken@) == old(self)@.take(),
            final(self)@.wf(),
    {
        proof {
            lemma_take_keeps_wf(self@);
        }
        if self.closed {
            return Taken::Drained;
        }
        let ghost before = self@;
        let seen_count: usize = self.seen.len();
        match self.queue.pop_front() {
            Some(entry) => {
                self.in_flight = self.in_flight + 1;
                proof {
                    assert(self@.queue =~= before.queue.subrange(1, before.queue.len() as int));
                    assert(entry@ == before.queue[0]);
                }
                Taken::Entry(entry)
            },
            None => {
                if self.in_flight == 0 {
                    self.closed = true;
                    Taken::Drained
                } else {
                    Taken::Pending
                }
            },
        }
    }

    /// Reports that one URL that was taken is done with.
    pub fn finish(&mut self)
        requires
            old(self)@.wf(),
        ensures
            final(self)@ == old(self)@.finish(),
            final(self)@.wf(),
    {
        if self.in_flight > 0 {
            self.in_flight = self.in_flight - 1;
            if self.in_flight == 0 && self.queue.len() == 0 {
                self.closed = true;
            }
        }
    }

    /// Closes the frontier: from now on it accepts nothing and hands out nothing.
    pub fn close(&mut self)
        requires
            old(self)@.wf(),
        ensures
            final(self)@ == old(self)@.close(),
            final(self)@.wf(),
    {
        self.closed = true;
    }

    /// Whether the frontier is closed.
    pub fn is_closed(&self) -> (r: bool)
        ensures
            r == self@.closed,
    {
        self.closed
    }

    /// How many URLs wait.
    pub fn waiting(&self) -> (n: usize)
        ensures
            n == self@.queue.len(),
    {
        self.queue.len()
    }

    /// How many URLs were taken and are not finished.
    pub fn in_flight(&self) -> (n: usize)
        ensures
            n == self@.in_flight,
    {
        self.in_flight
    }

    /// How many URLs were seen.
    pub fn seen_count(&self) -> (n: usize)
        ensures
            n == self@.seen.len(),
    {
        self.seen.len()
    }
}

} // verus!
