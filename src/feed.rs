//! The latest-value feed between the engine and its subscribers: the engine
//! publishes summaries, and each subscriber sees the newest one it has not
//! seen yet. Values published in between may be skipped.

use vstd::prelude::*;
use crate::book::{Level, Summary};

verus! {

/// `a` holds the same spread and levels as `b`.
pub open spec fn same_summary(a: Summary, b: Summary) -> bool {
    a.spread == b.spread && a.bids@ == b.bids@ && a.asks@ == b.asks@
}

fn copy_levels(levels: &Vec<Level>) -> (r: Vec<Level>)
    ensures
        r@ == levels@,
{
    let mut r: Vec<Level> = Vec::new();
    let mut i: usize = 0;
    while i < levels.len()
        invariant
            i <= levels@.len(),
            r@ == levels@.take(i as int),
        decreases levels@.len() - i,
    {
        r.push(levels[i].clone());
        assert(r@ =~= levels@.take(i + 1));
        i = i + 1;
    }
    assert(levels@.take(levels@.len() as int) =~= levels@);
    r
}

/// A copy of `s` with the same spread and levels.
pub fn copy_summary(s: &Summary) -> (r: Summary)
    ensures
        same_summary(r, *s),
{
    Summary { spread: s.spread, bids: copy_levels(&s.bids), asks: copy_levels(&s.asks) }
}

/// The shared slot: the latest summary and how many have been published.
pub struct SummaryFeed {
    version: u64,
    value: Summary,
    closed: bool,
}

/// Where one subscriber stands: how many publications it has seen.
pub struct FeedCursor {
    seen: u64,
}

/// What a subscriber's poll finds.
pub enum FeedPoll {
    /// A summary it has not seen yet.
    Changed(Summary),
    /// Nothing new; wait for the next publication.
    Unchanged,
    /// The engine has stopped and everything has been seen: end of stream.
    Closed,
}

impl FeedCursor {
    /// How many publications this subscriber has seen.
    pub closed spec fn seen(&self) -> nat {
        self.seen as nat
    }
}

impl SummaryFeed {
    /// How many summaries have been published.
    pub closed spec fn version(&self) -> nat {
        self.version as nat
    }

    /// The latest summary.
    pub closed spec fn value(&self) -> Summary {
        self.value
    }

    /// Whether the engine has stopped publishing.
    pub closed spec fn is_closed(&self) -> bool {
        self.closed
    }

    /// `cursor` has not seen the latest publication.
    pub open spec fn has_news(&self, cursor: &FeedCursor) -> bool {
        cursor.seen() < self.version()
    }

    /// A feed that holds `initial` and has published nothing.
    pub fn new(initial: Summary) -> (r: Self)
        ensures
            r.version() == 0,
            r.value() == initial,
            !r.is_closed(),
    {
        SummaryFeed { version: 0, value: initial, closed: false }
    }

    /// How many summaries have been published.
    pub fn publications(&self) -> (r: u64)
        ensures
            r == self.version(),
    {
        self.version
    }

    /// Makes `summary` the latest value.
    pub fn publish(&mut self, summary: Summary)
        requires
            old(self).version() < u64::MAX,
        ensures
            final(self).version() == old(self).version() + 1,
            final(self).value() == summary,
            final(self).is_closed() == old(self).is_closed(),
    {
        self.version = self.version + 1;
        self.value = summary;
    }

    /// Marks the end of publication.
    pub fn close(&mut self)
        ensures
            final(self).is_closed(),
            final(self).version() == old(self).version(),
            final(self).value() == old(self).value(),
    {
        self.closed = true;
    }

    /// A new subscriber, which has seen nothing yet.
    pub fn subscribe(&self) -> (r: FeedCursor)
        ensures
            r.seen() == 0,
    {
        FeedCursor { seen: 0 }
    }

    /// Looks for news for `cursor`: the latest summary where it has not seen
    /// it, else end of stream where the feed is closed, else nothing.
    pub fn poll(&self, cursor: &mut FeedCursor) -> (r: FeedPoll)
        ensures
            self.has_news(old(cursor)) ==> (r matches FeedPoll::Changed(s) && same_summary(
                s,
                self.value(),
            )) && final(cursor).seen() == self.version(),
            !self.has_news(old(cursor)) ==> final(cursor).seen() == old(cursor).seen(),
            !self.has_news(old(cursor)) && self.is_closed() ==> r is Closed,
            !self.has_news(old(cursor)) && !self.is_closed() ==> r is Unchanged,
    {
        if cursor.seen < self.version {
            cursor.seen = self.version;
            FeedPoll::Changed(copy_summary(&self.value))
        } else if self.closed {
            FeedPoll::Closed
        } else {
            FeedPoll::Unchanged
        }
    }
}

/// A subscriber that attaches after the engine has published anything gets
/// a summary on its first poll.
pub proof fn lemma_late_subscriber_sees_a_summary(feed: &SummaryFeed, cursor: &FeedCursor)
    requires
        cursor.seen() == 0,
        feed.version() > 0,
    ensures
        feed.has_news(cursor),
{
}

} // verus!
