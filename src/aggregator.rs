//! The aggregation engine: it keeps the merged summary, replacing one
//! exchange's contribution each time that exchange sends a snapshot.

use vstd::prelude::*;
use vstd::multiset::Multiset;
use vstd::seq_lib::lemma_multiset_commutative;
use crate::book::{associated, AnonymousLevel, Level, SimpleOrderBook, Summary};

verus! {

broadcast use vstd::seq_lib::group_to_multiset_ensures;

/// How many levels each side of the summary keeps.
pub const SUMMARY_DEPTH: usize = 10;

/// A side of the book.
#[derive(Debug, Clone, Copy, PartialEq, Eq)]
pub enum Side {
    Bids,
    Asks,
}

/// `a` may stand before `b` on `side`: the higher bid or the lower ask goes
/// first, and between equal prices the larger amount.
pub open spec fn precedes(side: Side, a: Level, b: Level) -> bool {
    match side {
        Side::Bids => a.price > b.price || (a.price == b.price && a.amount >= b.amount),
        Side::Asks => a.price < b.price || (a.price == b.price && a.amount >= b.amount),
    }
}

/// `s` is in the order of `side`, best first.
pub open spec fn is_sorted(side: Side, s: Seq<Level>) -> bool {
    forall|i: int, j: int| 0 <= i < j < s.len() ==> precedes(side, #[trigger] s[i], #[trigger] s[j])
}

/// The levels of `s` that did not come from the exchange `name`, in order.
pub open spec fn others(s: Seq<Level>, name: Seq<char>) -> Seq<Level>
    decreases s.len(),
{
    if s.len() == 0 {
        s
    } else if s.last().exchange@ == name {
        others(s.drop_last(), name)
    } else {
        others(s.drop_last(), name).push(s.last())
    }
}

/// `levels`, each attributed to `name`.
pub open spec fn attributed(levels: Seq<AnonymousLevel>, name: String) -> Seq<Level> {
    levels.map_values(|a: AnonymousLevel| associated(a, name))
}

/// What one side is chosen from when `name` sends `levels`: what the side
/// held from the other exchanges, and the new levels.
pub open spec fn candidates(current: Seq<Level>, name: String, levels: Seq<AnonymousLevel>) -> Seq<
    Level,
> {
    others(current, name@) + attributed(levels, name)
}

pub open spec fn depth_of(n: nat) -> nat {
    if n < SUMMARY_DEPTH {
        n
    } else {
        SUMMARY_DEPTH as nat
    }
}

/// `top` is the best `SUMMARY_DEPTH` levels of `cand` (all of them where there
/// are fewer), best first: taken from `cand`, and every level of `cand` left out
/// is preceded by each level kept.
pub open spec fn is_top_of(side: Side, cand: Seq<Level>, top: Seq<Level>) -> bool {
    &&& is_sorted(side, top)
    &&& top.len() == depth_of(cand.len())
    &&& top.to_multiset().subset_of(cand.to_multiset())
    &&& forall|x: Level| #[trigger]
        cand.to_multiset().sub(top.to_multiset()).contains(x) ==> forall|i: int|
            0 <= i < top.len() ==> precedes(side, #[trigger] top[i], x)
}

/// The best ask less the best bid, or zero where a side is empty.
pub open spec fn spread_of(bids: Seq<Level>, asks: Seq<Level>) -> int {
    if bids.len() > 0 && asks.len() > 0 {
        asks[0].price - bids[0].price
    } else {
        0
    }
}

/// A summary as it may be published: each side sorted and at most
/// `SUMMARY_DEPTH` long, and the spread taken from the two sides.
pub open spec fn summary_wf(s: Summary) -> bool {
    &&& s.bids@.len() <= SUMMARY_DEPTH
    &&& s.asks@.len() <= SUMMARY_DEPTH
    &&& is_sorted(Side::Bids, s.bids@)
    &&& is_sorted(Side::Asks, s.asks@)
    &&& s.spread == spread_of(s.bids@, s.asks@)
}

fn precedes_exec(side: Side, a: &Level, b: &Level) -> (r: bool)
    ensures
        r == precedes(side, *a, *b),
{
    match side {
        Side::Bids => a.price > b.price || (a.price == b.price && a.amount >= b.amount),
        Side::Asks => a.price < b.price || (a.price == b.price && a.amount >= b.amount),
    }
}

proof fn lemma_insert_to_multiset(s: Seq<Level>, i: int, x: Level)
    requires
        0 <= i <= s.len(),
    ensures
        s.insert(i, x).to_multiset() =~= s.to_multiset().insert(x),
{
    let a = s.take(i);
    let b = s.skip(i);
    assert(s =~= a + b);
    assert(s.insert(i, x) =~= a.push(x) + b);
    lemma_multiset_commutative(a, b);
    lemma_multiset_commutative(a.push(x), b);
}

/// Puts `x` into the sorted `full` where it belongs.
fn insert_sorted(side: Side, full: &mut Vec<Level>, x: Level)
    requires
        is_sorted(side, old(full)@),
    ensures
        is_sorted(side, final(full)@),
        final(full)@.to_multiset() == old(full)@.to_multiset().insert(x),
        final(full)@.len() == old(full)@.len() + 1,
{
    let ghost s = full@;
    let mut i: usize = 0;
    while i < full.len()
        invariant
            full@ == s,
            i <= s.len(),
            is_sorted(side, s),
            forall|k: int| 0 <= k < i ==> precedes(side, #[trigger] s[k], x),
        ensures
            i <= s.len(),
            forall|k: int| 0 <= k < i ==> precedes(side, #[trigger] s[k], x),
            i == s.len() || !precedes(side, s[i as int], x),
        decreases s.len() - i,
    {
        if !precedes_exec(side, &full[i], &x) {
            break;
        }
        i = i + 1;
    }
    full.insert(i, x);
    proof {
        let t = full@;
        assert(t == s.insert(i as int, x));
        assert forall|a: int, b: int| 0 <= a < b < t.len() implies precedes(
            side,
            #[trigger] t[a],
            #[trigger] t[b],
        ) by {
            if b < i {
                assert(t[a] == s[a] && t[b] == s[b]);
            } else if b == i {
                assert(t[a] == s[a]);
            } else if a == i {
                assert(t[b] == s[b - 1]);
                assert(precedes(side, s[i as int], s[b - 1]) || i == b - 1);
            } else if a < i {
                assert(t[a] == s[a] && t[b] == s[b - 1]);
            } else {
                assert(t[a] == s[a - 1] && t[b] == s[b - 1]);
            }
        }
        lemma_insert_to_multiset(s, i as int, x);
    }
}

proof fn lemma_take_is_top(side: Side, full: Seq<Level>, cand: Seq<Level>)
    requires
        is_sorted(side, full),
        full.to_multiset() == cand.to_multiset(),
    ensures
        is_top_of(side, cand, full.take(depth_of(full.len()) as int)),
{
    let k = depth_of(full.len()) as int;
    let top = full.take(k);
    let rest = full.skip(k);
    assert(full =~= top + rest);
    lemma_multiset_commutative(top, rest);
    full.to_multiset_ensures();
    cand.to_multiset_ensures();
    assert(cand.len() == full.len());
    assert(cand.to_multiset().sub(top.to_multiset()) =~= rest.to_multiset());
    assert forall|x: Level| #[trigger]
        cand.to_multiset().sub(top.to_multiset()).contains(x) implies forall|i: int|
        0 <= i < top.len() ==> precedes(side, #[trigger] top[i], x) by {
        assert(rest.contains(x));
        let j = choose|j: int| 0 <= j < rest.len() && rest[j] == x;
        assert(full[k + j] == x);
        assert forall|i: int| 0 <= i < top.len() implies precedes(side, #[trigger] top[i], x) by {
            assert(top[i] == full[i]);
        }
    }
}

/// Chooses one side of the new summary: the levels of `current` not from
/// `name`, with `levels` attributed to `name`, sorted best first and cut to
/// `SUMMARY_DEPTH`.
pub fn merge_side(side: Side, current: &Vec<Level>, name: &String, levels: &Vec<AnonymousLevel>) -> (r:
    Vec<Level>)
    ensures
        is_top_of(side, candidates(current@, *name, levels@), r@),
{
    let mut full: Vec<Level> = Vec::new();
    let mut i: usize = 0;
    while i < current.len()
        invariant
            i <= current@.len(),
            is_sorted(side, full@),
            full@.to_multiset() == others(current@.take(i as int), name@).to_multiset(),
        decreases current@.len() - i,
    {
        proof {
            assert(current@.take(i + 1).drop_last() =~= current@.take(i as int));
        }
        if !(current[i].exchange == *name) {
            insert_sorted(side, &mut full, current[i].clone());
        }
        i = i + 1;
    }
    assert(current@.take(current@.len() as int) =~= current@);
    let ghost kept = others(current@, name@);
    let mut j: usize = 0;
    while j < levels.len()
        invariant
            j <= levels@.len(),
            kept == others(current@, name@),
            is_sorted(side, full@),
            full@.to_multiset() == (kept + attributed(levels@.take(j as int), *name)).to_multiset(),
        decreases levels@.len() - j,
    {
        let level = levels[j].associate(name.clone());
        proof {
            assert(attributed(levels@.take(j + 1), *name) =~= attributed(
                levels@.take(j as int),
                *name,
            ).push(level));
            assert(kept + attributed(levels@.take(j + 1), *name) =~= (kept + attributed(
                levels@.take(j as int),
                *name,
            )).push(level));
        }
        insert_sorted(side, &mut full, level);
        j = j + 1;
    }
    assert(levels@.take(levels@.len() as int) =~= levels@);
    let ghost whole = full@;
    proof {
        lemma_take_is_top(side, whole, candidates(current@, *name, levels@));
    }
    full.truncate(SUMMARY_DEPTH);
    assert(full@ =~= whole.take(depth_of(whole.len()) as int));
    full
}


/// The two sides of a snapshot, as the aggregator keeps them for reference.
pub type SnapshotView = (Seq<AnonymousLevel>, Seq<AnonymousLevel>);

/// The levels of one side of a snapshot.
pub open spec fn side_levels(snapshot: SnapshotView, side: Side) -> Seq<AnonymousLevel> {
    match side {
        Side::Bids => snapshot.0,
        Side::Asks => snapshot.1,
    }
}

/// The price and amount of a level, without its exchange.
pub open spec fn anonymous(level: Level) -> AnonymousLevel {
    AnonymousLevel { price: level.price, amount: level.amount }
}

/// `a` ranks strictly above `b` on `side`: a better price, or the same price
/// and a larger amount.
pub open spec fn ranks_above(side: Side, a: AnonymousLevel, b: AnonymousLevel) -> bool {
    match side {
        Side::Bids => a.price > b.price || (a.price == b.price && a.amount > b.amount),
        Side::Asks => a.price < b.price || (a.price == b.price && a.amount > b.amount),
    }
}

/// How many levels of `levels` rank strictly above `x` on `side`.
pub open spec fn count_above(side: Side, levels: Seq<AnonymousLevel>, x: AnonymousLevel) -> nat
    decreases levels.len(),
{
    if levels.len() == 0 {
        0
    } else {
        count_above(side, levels.drop_last(), x) + if ranks_above(side, levels.last(), x) {
            1nat
        } else {
            0nat
        }
    }
}

/// Each level of `s` comes from the latest snapshot of its exchange, on the
/// same side, and is among that snapshot's best `SUMMARY_DEPTH` levels on
/// that side: fewer than `SUMMARY_DEPTH` of them rank above it, whatever the
/// order in which the exchange listed them.
pub open spec fn from_latest(s: Seq<Level>, latest: Map<Seq<char>, SnapshotView>, side: Side) -> bool {
    forall|i: int|
        0 <= i < s.len() ==> {
            let snap = side_levels(latest[(#[trigger] s[i]).exchange@], side);
            &&& latest.contains_key(s[i].exchange@)
            &&& snap.contains(anonymous(s[i]))
            &&& count_above(side, snap, anonymous(s[i])) < SUMMARY_DEPTH
        }
}

/// The aggregation engine: the merged summary, which it alone changes.
pub struct OrderbookAggregator {
    summary: Summary,
    latest: Ghost<Map<Seq<char>, SnapshotView>>,
}

impl OrderbookAggregator {
    /// The summary as it stands.
    pub closed spec fn published(&self) -> Summary {
        self.summary
    }

    /// The latest snapshot that each exchange has sent, by exchange name.
    pub closed spec fn latest(&self) -> Map<Seq<char>, SnapshotView> {
        self.latest@
    }

    /// What holds of every summary the engine publishes: both sides sorted and
    /// at most `SUMMARY_DEPTH` long, the spread taken from them, and each level
    /// taken from the latest snapshot of its exchange, among that snapshot's
    /// best `SUMMARY_DEPTH` levels on its side.
    pub open spec fn wf(&self) -> bool {
        &&& summary_wf(self.published())
        &&& from_latest(self.published().bids@, self.latest(), Side::Bids)
        &&& from_latest(self.published().asks@, self.latest(), Side::Asks)
    }

    /// An engine that has received nothing yet.
    pub fn new() -> (r: Self)
        ensures
            r.wf(),
            r.published().bids@.len() == 0,
            r.published().asks@.len() == 0,
            r.published().spread == 0,
            r.latest() == Map::<Seq<char>, SnapshotView>::empty(),
    {
        OrderbookAggregator { summary: Summary::empty(), latest: Ghost(Map::empty()) }
    }

    /// The summary as it stands.
    pub fn summary(&self) -> (r: &Summary)
        ensures
            *r == self.published(),
    {
        &self.summary
    }

    /// Takes in a new snapshot from the exchange `name`: its levels replace
    /// those that `name` had in the summary, each side is sorted and cut to
    /// `SUMMARY_DEPTH`, and the spread is taken again.
    pub fn update(&mut self, name: &String, book: SimpleOrderBook)
        requires
            old(self).wf(),
        ensures
            final(self).wf(),
            is_top_of(
                Side::Bids,
                candidates(old(self).published().bids@, *name, book.bids@),
                final(self).published().bids@,
            ),
            is_top_of(
                Side::Asks,
                candidates(old(self).published().asks@, *name, book.asks@),
                final(self).published().asks@,
            ),
            final(self).published().spread == spread_of(
                final(self).published().bids@,
                final(self).published().asks@,
            ),
            final(self).latest() == old(self).latest().insert(name@, (book.bids@, book.asks@)),
    {
        let bids = merge_side(Side::Bids, &self.summary.bids, name, &book.bids);
        let asks = merge_side(Side::Asks, &self.summary.asks, name, &book.asks);
        let spread: i128 = if bids.len() == 0 || asks.len() == 0 {
            0
        } else {
            asks[0].price as i128 - bids[0].price as i128
        };
        let ghost old_latest = self.latest@;
        let ghost latest = old_latest.insert(name@, (book.bids@, book.asks@));
        proof {
            lemma_top_from_latest(
                Side::Bids,
                self.summary.bids@,
                *name,
                book.bids@,
                bids@,
                old_latest,
                latest,
            );
            lemma_top_from_latest(
                Side::Asks,
                self.summary.asks@,
                *name,
                book.asks@,
                asks@,
                old_latest,
                latest,
            );
        }
        self.summary = Summary { spread, bids, asks };
        self.latest = Ghost(latest);
    }
}

proof fn lemma_others_contains(s: Seq<Level>, name: Seq<char>, x: Level)
    requires
        others(s, name).contains(x),
    ensures
        s.contains(x),
        x.exchange@ != name,
    decreases s.len(),
{
    if s.len() > 0 {
        let rest = others(s.drop_last(), name);
        if rest.contains(x) {
            lemma_others_contains(s.drop_last(), name, x);
            let k = choose|k: int| 0 <= k < s.drop_last().len() && s.drop_last()[k] == x;
            assert(s[k] == x);
        } else {
            assert(s.last() == x);
            assert(s[s.len() - 1] == x);
        }
    }
}

proof fn lemma_top_from_latest(
    side: Side,
    current: Seq<Level>,
    name: String,
    levels: Seq<AnonymousLevel>,
    top: Seq<Level>,
    old_latest: Map<Seq<char>, SnapshotView>,
    latest: Map<Seq<char>, SnapshotView>,
)
    requires
        from_latest(current, old_latest, side),
        is_top_of(side, candidates(current, name, levels), top),
        latest == old_latest.insert(
            name@,
            match side {
                Side::Bids => (levels, latest[name@].1),
                Side::Asks => (latest[name@].0, levels),
            },
        ),
    ensures
        from_latest(top, latest, side),
{
    let kept = others(current, name@);
    let fresh = attributed(levels, name);
    let cand = kept + fresh;
    lemma_multiset_commutative(kept, fresh);
    assert forall|i: int| 0 <= i < top.len() implies {
        let snap = side_levels(latest[(#[trigger] top[i]).exchange@], side);
        &&& latest.contains_key(top[i].exchange@)
        &&& snap.contains(anonymous(top[i]))
        &&& count_above(side, snap, anonymous(top[i])) < SUMMARY_DEPTH
    } by {
        let x = top[i];
        assert(top.contains(x));
        assert(top.to_multiset().count(x) > 0);
        assert(cand.to_multiset().count(x) > 0);
        if kept.to_multiset().count(x) > 0 {
            assert(kept.contains(x));
            lemma_others_contains(current, name@, x);
            let k = choose|k: int| 0 <= k < current.len() && current[k] == x;
            assert(current[k] == x);
        } else {
            assert(fresh.contains(x));
            let k = choose|k: int| 0 <= k < fresh.len() && fresh[k] == x;
            assert(levels[k] == anonymous(x));
            assert(side_levels(latest[name@], side)[k] == anonymous(x));
            lemma_fresh_within_depth(side, current, name, levels, top, i);
        }
    }
}

/// `a` ranks strictly above `b` on `side`.
spec fn outranks(side: Side, a: Level, b: Level) -> bool {
    precedes(side, a, b) && !precedes(side, b, a)
}

/// The levels of `s` that rank strictly above `x`, in order.
spec fn above(side: Side, s: Seq<Level>, x: Level) -> Seq<Level>
    decreases s.len(),
{
    if s.len() == 0 {
        s
    } else if outranks(side, s.last(), x) {
        above(side, s.drop_last(), x).push(s.last())
    } else {
        above(side, s.drop_last(), x)
    }
}

proof fn lemma_above_count(side: Side, s: Seq<Level>, x: Level, v: Level)
    ensures
        above(side, s, x).to_multiset().count(v) == if outranks(side, v, x) {
            s.to_multiset().count(v)
        } else {
            0
        },
    decreases s.len(),
{
    broadcast use vstd::multiset::group_multiset_axioms;

    if s.len() == 0 {
        assert(above(side, s, x).to_multiset() =~= Multiset::empty());
        assert(s.to_multiset() =~= Multiset::empty());
    } else {
        let s1 = s.drop_last();
        lemma_above_count(side, s1, x, v);
        assert(s =~= s1.push(s.last()));
        assert(s.to_multiset() =~= s1.to_multiset().insert(s.last()));
    }
}

proof fn lemma_above_len(side: Side, levels: Seq<AnonymousLevel>, name: String, x: Level)
    requires
        x.exchange == name,
    ensures
        above(side, attributed(levels, name), x).len() == count_above(side, levels, anonymous(x)),
    decreases levels.len(),
{
    if levels.len() > 0 {
        let l1 = levels.drop_last();
        lemma_above_len(side, l1, name, x);
        let f = attributed(levels, name);
        assert(f.drop_last() =~= attributed(l1, name));
        assert(f.last() == associated(levels.last(), name));
    } else {
        assert(attributed(levels, name).len() == 0);
    }
}

proof fn lemma_fresh_within_depth(
    side: Side,
    current: Seq<Level>,
    name: String,
    levels: Seq<AnonymousLevel>,
    top: Seq<Level>,
    i: int,
)
    requires
        is_top_of(side, candidates(current, name, levels), top),
        0 <= i < top.len(),
        top[i].exchange@ == name@,
    ensures
        count_above(side, levels, anonymous(top[i])) < SUMMARY_DEPTH,
{
    broadcast use vstd::multiset::group_multiset_axioms;

    let kept = others(current, name@);
    let fresh = attributed(levels, name);
    let cand = kept + fresh;
    lemma_multiset_commutative(kept, fresh);
    let x = top[i];
    assert(top.contains(x));
    assert(top.to_multiset().count(x) > 0);
    assert(cand.to_multiset().count(x) > 0);
    if kept.contains(x) {
        lemma_others_contains(current, name@, x);
    }
    assert(kept.to_multiset().count(x) == 0);
    assert(fresh.contains(x));
    let k = choose|k: int| 0 <= k < fresh.len() && fresh[k] == x;
    assert(x.exchange == name);
    let h = above(side, fresh, x);
    lemma_above_len(side, levels, name, x);
    let w = h.push(x);
    assert(w.to_multiset() =~= h.to_multiset().insert(x));
    assert forall|v: Level| w.to_multiset().count(v) <= top.to_multiset().count(v) by {
        lemma_above_count(side, fresh, x, v);
        if w.to_multiset().count(v) > top.to_multiset().count(v) {
            if v == x {
                assert(h.to_multiset().count(x) == 0);
            } else {
                assert(outranks(side, v, x));
                assert(cand.to_multiset().count(v) >= fresh.to_multiset().count(v));
                assert(cand.to_multiset().sub(top.to_multiset()).count(v) > 0);
                assert(cand.to_multiset().sub(top.to_multiset()).contains(v));
                assert(precedes(side, top[i], v));
            }
        }
    }
    assert(w.to_multiset().subset_of(top.to_multiset()));
    assert(top.to_multiset().sub(w.to_multiset()).len() == top.to_multiset().len()
        - w.to_multiset().len());
    assert(w.to_multiset().len() == w.len());
    assert(top.to_multiset().len() == top.len());
}

/// When an exchange sends an empty side, none of that side's levels is
/// attributed to it any more.
pub proof fn lemma_empty_side_clears_exchange(
    side: Side,
    current: Seq<Level>,
    name: String,
    top: Seq<Level>,
)
    requires
        is_top_of(side, candidates(current, name, Seq::empty()), top),
    ensures
        forall|i: int| 0 <= i < top.len() ==> (#[trigger] top[i]).exchange@ != name@,
{
    let kept = others(current, name@);
    let cand = candidates(current, name, Seq::empty());
    assert(cand =~= kept);
    assert forall|i: int| 0 <= i < top.len() implies (#[trigger] top[i]).exchange@ != name@ by {
        let x = top[i];
        assert(top.contains(x));
        assert(top.to_multiset().count(x) > 0);
        assert(kept.to_multiset().count(x) > 0);
        assert(kept.contains(x));
        lemma_others_contains(current, name@, x);
    }
}

} // verus!
