//! The order-book store: two ordered price-to-size mappings.
//!
//! Each side keeps its levels sorted by price, so the best bid (maximum
//! price) and best ask (minimum price) sit at the ends. Prices and sizes
//! are mantissas at the trading pair's fixed exponents; a zero size never
//! rests in the book — in a delta it means deletion of that level.

use vstd::prelude::*;

verus! {

/// Some level of `s` carries price `p`.
pub open spec fn has_price(s: Seq<(u64, u64)>, p: u64) -> bool {
    exists|i: int| 0 <= i < s.len() && (#[trigger] s[i]).0 == p
}

/// The index of the level carrying price `p`.
pub open spec fn price_index(s: Seq<(u64, u64)>, p: u64) -> int {
    choose|i: int| 0 <= i < s.len() && (#[trigger] s[i]).0 == p
}

/// A level sequence read as a map from price to size.
pub open spec fn side_map(s: Seq<(u64, u64)>) -> Map<u64, u64> {
    Map::new(|p: u64| has_price(s, p), |p: u64| s[price_index(s, p)].1)
}

/// Strictly increasing prices, and no resting zero sizes.
pub open spec fn sorted_levels(s: Seq<(u64, u64)>) -> bool {
    &&& forall|i: int, j: int|
        0 <= i < j < s.len() ==> (#[trigger] s[i]).0 < (#[trigger] s[j]).0
    &&& forall|i: int| 0 <= i < s.len() ==> (#[trigger] s[i]).1 != 0
}

/// One delta applied to a side's contents: a zero size deletes the level,
/// any other size sets it.
pub open spec fn apply_delta(m: Map<u64, u64>, p: u64, size: u64) -> Map<u64, u64> {
    if size == 0 {
        m.remove(p)
    } else {
        m.insert(p, size)
    }
}

/// A batch of deltas applied in order.
pub open spec fn apply_deltas(m: Map<u64, u64>, ds: Seq<(u64, u64)>) -> Map<u64, u64>
    decreases ds.len(),
{
    if ds.len() == 0 {
        m
    } else {
        apply_delta(apply_deltas(m, ds.drop_last()), ds.last().0, ds.last().1)
    }
}

/// What a snapshot leaves in a side: its entries applied to an empty side.
/// The prior contents do not enter at all.
pub open spec fn snapshot_map(ds: Seq<(u64, u64)>) -> Map<u64, u64> {
    apply_deltas(Map::empty(), ds)
}

/// In a sorted side each price occurs once, so the level at `i` is the one
/// the map reads at its price.
pub proof fn lemma_price_index_of(s: Seq<(u64, u64)>, i: int)
    requires
        sorted_levels(s),
        0 <= i < s.len(),
    ensures
        has_price(s, s[i].0),
        price_index(s, s[i].0) == i,
        side_map(s).dom().contains(s[i].0),
        side_map(s)[s[i].0] == s[i].1,
{
    assert(has_price(s, s[i].0));
    let j = price_index(s, s[i].0);
    if j < i {
        assert(s[j].0 < s[i].0);
    } else if j > i {
        assert(s[i].0 < s[j].0);
    }
}

/// Zero-size deletion: a zero-size delta removes the price when present and
/// is a no-op when it is absent; either way the price does not rest in the
/// result.
pub proof fn lemma_zero_size_deletion(m: Map<u64, u64>, p: u64)
    ensures
        !apply_delta(m, p, 0).dom().contains(p),
        m.dom().contains(p) ==> apply_delta(m, p, 0) == m.remove(p),
        !m.dom().contains(p) ==> apply_delta(m, p, 0) == m,
{
    if !m.dom().contains(p) {
        assert(m.remove(p) =~= m);
    }
}

/// Appending one delta to a batch applies it last.
pub proof fn lemma_apply_deltas_push(m: Map<u64, u64>, ds: Seq<(u64, u64)>, d: (u64, u64))
    ensures
        apply_deltas(m, ds.push(d)) == apply_delta(apply_deltas(m, ds), d.0, d.1),
{
    assert(ds.push(d).drop_last() =~= ds);
    assert(ds.push(d).last() == d);
}

/// One side of the book: price levels sorted by price, each with its size.
pub struct BookSide {
    levels: Vec<(u64, u64)>,
}

impl BookSide {
    /// Well-formed: sorted, unique prices, no zero sizes.
    pub closed spec fn wf(self) -> bool {
        sorted_levels(self.levels@)
    }

    /// The side's contents as a map from price to size.
    pub closed spec fn as_map(self) -> Map<u64, u64> {
        side_map(self.levels@)
    }

    /// The level with the highest price, if any.
    pub closed spec fn spec_best_high(self) -> Option<(u64, u64)> {
        if self.levels@.len() == 0 {
            None
        } else {
            Some(self.levels@.last())
        }
    }

    /// The level with the lowest price, if any.
    pub closed spec fn spec_best_low(self) -> Option<(u64, u64)> {
        if self.levels@.len() == 0 {
            None
        } else {
            Some(self.levels@[0])
        }
    }

    pub fn new() -> (r: BookSide)
        ensures
            r.wf(),
            r.as_map() == Map::<u64, u64>::empty(),
    {
        let r = BookSide { levels: Vec::new() };
        proof {
            assert(r.as_map() =~= Map::<u64, u64>::empty());
        }
        r
    }

    /// The lowest index whose price is at least `price` (the side's length
    /// if every price is lower).
    fn find_at_or_above(&self, price: u64) -> (r: usize)
        requires
            self.wf(),
        ensures
            r <= self.levels@.len(),
            forall|j: int| 0 <= j < r ==> (#[trigger] self.levels@[j]).0 < price,
            r < self.levels@.len() ==> self.levels@[r as int].0 >= price,
    {
        let n = self.levels.len();
        let mut i: usize = 0;
        while i < n
            invariant
                self.wf(),
                n == self.levels@.len(),
                i <= n,
                forall|j: int| 0 <= j < i ==> (#[trigger] self.levels@[j]).0 < price,
            decreases n - i,
        {
            if self.levels[i].0 >= price {
                return i;
            }
            i += 1;
        }
        i
    }

    /// Insert or overwrite the level at `price` with a positive `size`.
    pub fn set_level(&mut self, price: u64, size: u64)
        requires
            old(self).wf(),
            size != 0,
        ensures
            final(self).wf(),
            final(self).as_map() == old(self).as_map().insert(price, size),
    {
        let idx = self.find_at_or_above(price);
        let ghost s0 = self.levels@;
        if idx < self.levels.len() && self.levels[idx].0 == price {
            self.levels[idx] = (price, size);
            proof {
                let s1 = self.levels@;
                assert(s1 == s0.update(idx as int, (price, size)));
                assert(sorted_levels(s1)) by {
                    assert(forall|i: int|
                        0 <= i < s1.len() ==> (#[trigger] s1[i]).0 == s0[i].0);
                }
                lemma_set_level_update(s0, s1, idx as int, price, size);
            }
        } else {
            self.levels.insert(idx, (price, size));
            proof {
                let s1 = self.levels@;
                assert(s1 == s0.insert(idx as int, (price, size)));
                assert(forall|i: int| 0 <= i < idx ==> #[trigger] s1[i] == s0[i]);
                assert(s1[idx as int] == (price, size));
                assert(forall|i: int|
                    idx < i < s1.len() ==> #[trigger] s1[i] == s0[i - 1]);
                assert(sorted_levels(s1)) by {
                    assert forall|i: int, j: int| 0 <= i < j < s1.len() implies (#[trigger] s1[i]).0
                        < (#[trigger] s1[j]).0 by {
                        if i == idx {
                            assert(s1[j] == s0[j - 1]);
                            assert(s0[j - 1].0 >= s0[idx as int].0);
                        } else if j == idx {
                            assert(s1[i] == s0[i]);
                        }
                    }
                }
                lemma_set_level_insert(s0, s1, idx as int, price, size);
            }
        }
    }

    /// Remove the level at `price`, if one rests in the side.
    pub fn remove_level(&mut self, price: u64)
        requires
            old(self).wf(),
        ensures
            final(self).wf(),
            final(self).as_map() == old(self).as_map().remove(price),
    {
        let idx = self.find_at_or_above(price);
        let ghost s0 = self.levels@;
        if idx < self.levels.len() && self.levels[idx].0 == price {
            self.levels.remove(idx);
            proof {
                let s1 = self.levels@;
                assert(s1 == s0.remove(idx as int));
                assert(forall|i: int| 0 <= i < idx ==> #[trigger] s1[i] == s0[i]);
                assert(forall|i: int|
                    idx <= i < s1.len() ==> #[trigger] s1[i] == s0[i + 1]);
                assert(sorted_levels(s1)) by {
                    assert forall|i: int, j: int| 0 <= i < j < s1.len() implies (#[trigger] s1[i]).0
                        < (#[trigger] s1[j]).0 by {
                        if i < idx && j >= idx {
                            assert(s0[i].0 < s0[j + 1].0);
                        }
                    }
                }
                lemma_remove_level(s0, s1, idx as int, price);
            }
        } else {
            proof {
                if has_price(s0, price) {
                    let i = price_index(s0, price);
                    lemma_price_index_of(s0, i);
                    if i < idx {
                        assert(s0[i].0 < price);
                    }
                    assert(false);
                }
                assert(side_map(s0).remove(price) =~= side_map(s0));
            }
        }
    }

    /// Apply one delta: a zero size removes the level, any other sets it.
    pub fn apply(&mut self, price: u64, size: u64)
        requires
            old(self).wf(),
        ensures
            final(self).wf(),
            final(self).as_map() == apply_delta(old(self).as_map(), price, size),
    {
        if size == 0 {
            self.remove_level(price);
        } else {
            self.set_level(price, size);
        }
    }

    /// Apply a batch of deltas in the order given.
    pub fn apply_update(&mut self, deltas: &Vec<(u64, u64)>)
        requires
            old(self).wf(),
        ensures
            final(self).wf(),
            final(self).as_map() == apply_deltas(old(self).as_map(), deltas@),
    {
        let n = deltas.len();
        let mut i: usize = 0;
        proof {
            assert(deltas@.subrange(0, 0) =~= Seq::<(u64, u64)>::empty());
        }
        while i < n
            invariant
                n == deltas@.len(),
                i <= n,
                self.wf(),
                self.as_map() == apply_deltas(old(self).as_map(), deltas@.subrange(0, i as int)),
            decreases n - i,
        {
            let (p, s) = deltas[i];
            self.apply(p, s);
            proof {
                assert(deltas@.subrange(0, i as int + 1) =~= deltas@.subrange(0, i as int).push(
                    deltas@[i as int],
                ));
                lemma_apply_deltas_push(
                    old(self).as_map(),
                    deltas@.subrange(0, i as int),
                    deltas@[i as int],
                );
            }
            i += 1;
        }
        proof {
            assert(deltas@.subrange(0, n as int) =~= deltas@);
        }
    }

    /// Replace the whole side with a snapshot's entries. The prior contents
    /// are discarded, so the result depends on the entries alone: applying
    /// the same snapshot twice leaves the side identical both times. A
    /// zero-size entry is read as the deletion it means everywhere else, so
    /// it never rests in the book and the no-zero-sizes invariant holds
    /// from the first message on.
    pub fn replace_with(&mut self, entries: &Vec<(u64, u64)>)
        ensures
            final(self).wf(),
            final(self).as_map() == snapshot_map(entries@),
    {
        self.levels.clear();
        proof {
            assert(self.as_map() =~= Map::<u64, u64>::empty());
        }
        self.apply_update(entries);
    }

    /// The side's levels in increasing price order. Together with the
    /// sortedness this pins the result: it is the one sorted listing of the
    /// side's contents.
    pub fn entries(&self) -> (r: Vec<(u64, u64)>)
        requires
            self.wf(),
        ensures
            sorted_levels(r@),
            side_map(r@) == self.as_map(),
    {
        let mut out: Vec<(u64, u64)> = Vec::new();
        let n = self.levels.len();
        let mut i: usize = 0;
        while i < n
            invariant
                n == self.levels@.len(),
                i <= n,
                out@ == self.levels@.subrange(0, i as int),
            decreases n - i,
        {
            out.push(self.levels[i]);
            proof {
                assert(self.levels@.subrange(0, i as int).push(self.levels@[i as int])
                    =~= self.levels@.subrange(0, i as int + 1));
            }
            i += 1;
        }
        proof {
            assert(out@ =~= self.levels@);
        }
        out
    }

    /// The highest-priced level: the best bid when this side holds bids.
    pub fn best_high(&self) -> (r: Option<(u64, u64)>)
        requires
            self.wf(),
        ensures
            r == self.spec_best_high(),
            r is None <==> self.as_map() =~= Map::<u64, u64>::empty(),
            r matches Some(level) ==> self.as_map().dom().contains(level.0)
                && self.as_map()[level.0] == level.1 && forall|q: u64|
                self.as_map().dom().contains(q) ==> q <= level.0,
    {
        let n = self.levels.len();
        if n == 0 {
            proof {
                assert(self.as_map() =~= Map::<u64, u64>::empty());
            }
            None
        } else {
            let level = self.levels[n - 1];
            proof {
                lemma_price_index_of(self.levels@, n - 1);
                assert forall|q: u64| self.as_map().dom().contains(q) implies q <= level.0 by {
                    let i = price_index(self.levels@, q);
                    if i < n - 1 {
                        assert(self.levels@[i].0 < self.levels@[n - 1].0);
                    }
                }
            }
            Some(level)
        }
    }

    /// The lowest-priced level: the best ask when this side holds asks.
    pub fn best_low(&self) -> (r: Option<(u64, u64)>)
        requires
            self.wf(),
        ensures
            r == self.spec_best_low(),
            r is None <==> self.as_map() =~= Map::<u64, u64>::empty(),
            r matches Some(level) ==> self.as_map().dom().contains(level.0)
                && self.as_map()[level.0] == level.1 && forall|q: u64|
                self.as_map().dom().contains(q) ==> q >= level.0,
    {
        let n = self.levels.len();
        if n == 0 {
            proof {
                assert(self.as_map() =~= Map::<u64, u64>::empty());
            }
            None
        } else {
            let level = self.levels[0];
            proof {
                lemma_price_index_of(self.levels@, 0);
                assert forall|q: u64| self.as_map().dom().contains(q) implies q >= level.0 by {
                    let i = price_index(self.levels@, q);
                    if i > 0 {
                        assert(self.levels@[0].0 < self.levels@[i].0);
                    }
                }
            }
            Some(level)
        }
    }
}

/// Ordering invariant: a non-empty side's best-high level carries the
/// maximum resting price with its stored size, and its best-low level the
/// minimum; an empty side has neither.
pub proof fn lemma_ordering_invariant(side: BookSide)
    requires
        side.wf(),
    ensures
        side.spec_best_high() is None <==> side.as_map() == Map::<u64, u64>::empty(),
        side.spec_best_low() is None <==> side.as_map() == Map::<u64, u64>::empty(),
        side.spec_best_high() matches Some(level) ==> side.as_map().dom().contains(level.0)
            && side.as_map()[level.0] == level.1 && forall|q: u64|
            side.as_map().dom().contains(q) ==> q <= level.0,
        side.spec_best_low() matches Some(level) ==> side.as_map().dom().contains(level.0)
            && side.as_map()[level.0] == level.1 && forall|q: u64|
            side.as_map().dom().contains(q) ==> q >= level.0,
{
    let s = side.levels@;
    let n = s.len() as int;
    if n == 0 {
        assert(side.as_map() =~= Map::<u64, u64>::empty());
    } else {
        assert(side.as_map().dom().contains(s[0].0)) by {
            lemma_price_index_of(s, 0);
        }
        assert(side.as_map() != Map::<u64, u64>::empty()) by {
            assert(!Map::<u64, u64>::empty().dom().contains(s[0].0));
        }
        lemma_price_index_of(s, n - 1);
        lemma_price_index_of(s, 0);
        assert forall|q: u64| side.as_map().dom().contains(q) implies q <= s[n - 1].0 && q >= s[0].0 by {
            let i = price_index(s, q);
            if i < n - 1 {
                assert(s[i].0 < s[n - 1].0);
            }
            if i > 0 {
                assert(s[0].0 < s[i].0);
            }
        }
    }
}

/// The order book of one trading pair: resting bids and asks.
pub struct Book {
    pub bids: BookSide,
    pub asks: BookSide,
}

impl Book {
    pub open spec fn wf(self) -> bool {
        self.bids.wf() && self.asks.wf()
    }

    pub fn new() -> (r: Book)
        ensures
            r.wf(),
            r.bids.as_map() == Map::<u64, u64>::empty(),
            r.asks.as_map() == Map::<u64, u64>::empty(),
    {
        Book { bids: BookSide::new(), asks: BookSide::new() }
    }

    /// Replace both sides with a snapshot's entries; the prior contents are
    /// discarded, so the result depends on the entries alone.
    pub fn apply_snapshot(&mut self, bids: &Vec<(u64, u64)>, asks: &Vec<(u64, u64)>)
        ensures
            final(self).wf(),
            final(self).bids.as_map() == snapshot_map(bids@),
            final(self).asks.as_map() == snapshot_map(asks@),
    {
        self.bids.replace_with(bids);
        self.asks.replace_with(asks);
    }

    /// Apply one update message: all bid deltas, then all ask deltas, each
    /// side in the order given.
    pub fn apply_update(&mut self, bids: &Vec<(u64, u64)>, asks: &Vec<(u64, u64)>)
        requires
            old(self).wf(),
        ensures
            final(self).wf(),
            final(self).bids.as_map() == apply_deltas(old(self).bids.as_map(), bids@),
            final(self).asks.as_map() == apply_deltas(old(self).asks.as_map(), asks@),
    {
        self.bids.apply_update(bids);
        self.asks.apply_update(asks);
    }

    /// The best bid: the highest resting bid price with its size.
    pub fn best_bid(&self) -> (r: Option<(u64, u64)>)
        requires
            self.wf(),
        ensures
            r == self.bids.spec_best_high(),
            r is None <==> self.bids.as_map() =~= Map::<u64, u64>::empty(),
            r matches Some(level) ==> self.bids.as_map().dom().contains(level.0)
                && self.bids.as_map()[level.0] == level.1 && forall|q: u64|
                self.bids.as_map().dom().contains(q) ==> q <= level.0,
    {
        self.bids.best_high()
    }

    /// The best ask: the lowest resting ask price with its size.
    pub fn best_ask(&self) -> (r: Option<(u64, u64)>)
        requires
            self.wf(),
        ensures
            r == self.asks.spec_best_low(),
            r is None <==> self.asks.as_map() =~= Map::<u64, u64>::empty(),
            r matches Some(level) ==> self.asks.as_map().dom().contains(level.0)
                && self.asks.as_map()[level.0] == level.1 && forall|q: u64|
                self.asks.as_map().dom().contains(q) ==> q >= level.0,
    {
        self.asks.best_low()
    }
}

/// Overwriting the level at an existing price updates the map at that price.
proof fn lemma_set_level_update(s0: Seq<(u64, u64)>, s1: Seq<(u64, u64)>, idx: int, price: u64, size: u64)
    requires
        sorted_levels(s0),
        sorted_levels(s1),
        0 <= idx < s0.len(),
        s0[idx].0 == price,
        s1 == s0.update(idx, (price, size)),
    ensures
        side_map(s1) == side_map(s0).insert(price, size),
{
    assert forall|q: u64| #[trigger]
        side_map(s1).dom().contains(q) <==> side_map(s0).insert(price, size).dom().contains(
        q,
    ) by {
        if q == price {
            lemma_price_index_of(s1, idx);
        } else {
            if has_price(s1, q) {
                let i = price_index(s1, q);
                assert(s0[i].0 == q);
            }
            if has_price(s0, q) {
                let i = price_index(s0, q);
                assert(i != idx);
                assert(s1[i].0 == q);
            }
        }
    }
    assert forall|q: u64| side_map(s1).dom().contains(q) implies #[trigger] side_map(s1)[q]
        == side_map(s0).insert(price, size)[q] by {
        if q == price {
            lemma_price_index_of(s1, idx);
        } else {
            let i = price_index(s1, q);
            assert(s1[i].0 == q);
            assert(i != idx);
            assert(s0[i].0 == q);
            lemma_price_index_of(s1, i);
            lemma_price_index_of(s0, i);
        }
    }
    assert(side_map(s1) =~= side_map(s0).insert(price, size));
}

/// Inserting a level at a fresh price adds that price to the map.
proof fn lemma_set_level_insert(s0: Seq<(u64, u64)>, s1: Seq<(u64, u64)>, idx: int, price: u64, size: u64)
    requires
        sorted_levels(s0),
        sorted_levels(s1),
        0 <= idx <= s0.len(),
        s1 == s0.insert(idx, (price, size)),
        forall|j: int| 0 <= j < idx ==> (#[trigger] s0[j]).0 < price,
        idx < s0.len() ==> s0[idx].0 > price,
    ensures
        side_map(s1) == side_map(s0).insert(price, size),
{
    assert(forall|i: int| 0 <= i < idx ==> #[trigger] s1[i] == s0[i]);
    assert(s1[idx] == (price, size));
    assert(forall|i: int| idx < i < s1.len() ==> #[trigger] s1[i] == s0[i - 1]);
    assert forall|q: u64| #[trigger]
        side_map(s1).dom().contains(q) <==> side_map(s0).insert(price, size).dom().contains(
        q,
    ) by {
        if q == price {
            lemma_price_index_of(s1, idx);
        } else {
            if has_price(s1, q) {
                let i = price_index(s1, q);
                assert(i != idx);
                if i < idx {
                    assert(s0[i].0 == q);
                } else {
                    assert(s0[i - 1].0 == q);
                }
            }
            if has_price(s0, q) {
                let i = price_index(s0, q);
                if i < idx {
                    assert(s1[i].0 == q);
                } else {
                    assert(s1[i + 1].0 == q);
                }
            }
        }
    }
    assert forall|q: u64| side_map(s1).dom().contains(q) implies #[trigger] side_map(s1)[q]
        == side_map(s0).insert(price, size)[q] by {
        if q == price {
            lemma_price_index_of(s1, idx);
        } else {
            let i = price_index(s1, q);
            assert(s1[i].0 == q);
            assert(i != idx);
            lemma_price_index_of(s1, i);
            if i < idx {
                lemma_price_index_of(s0, i);
            } else {
                lemma_price_index_of(s0, i - 1);
            }
        }
    }
    assert(side_map(s1) =~= side_map(s0).insert(price, size));
}

/// Removing the level at a resting price deletes that price from the map.
proof fn lemma_remove_level(s0: Seq<(u64, u64)>, s1: Seq<(u64, u64)>, idx: int, price: u64)
    requires
        sorted_levels(s0),
        sorted_levels(s1),
        0 <= idx < s0.len(),
        s0[idx].0 == price,
        s1 == s0.remove(idx),
    ensures
        side_map(s1) == side_map(s0).remove(price),
{
    assert(forall|i: int| 0 <= i < idx ==> #[trigger] s1[i] == s0[i]);
    assert(forall|i: int| idx <= i < s1.len() ==> #[trigger] s1[i] == s0[i + 1]);
    assert forall|q: u64| #[trigger]
        side_map(s1).dom().contains(q) <==> side_map(s0).remove(price).dom().contains(q) by {
        if has_price(s1, q) {
            let i = price_index(s1, q);
            if i < idx {
                assert(s0[i].0 == q);
            } else {
                assert(s0[i + 1].0 == q);
            }
            if q == price {
                lemma_price_index_of(s0, idx);
                if i < idx {
                    lemma_price_index_of(s0, i);
                } else {
                    lemma_price_index_of(s0, i + 1);
                }
                assert(false);
            }
        }
        if q != price && has_price(s0, q) {
            let i = price_index(s0, q);
            assert(i != idx);
            if i < idx {
                assert(s1[i].0 == q);
            } else {
                assert(s1[i - 1].0 == q);
            }
        }
    }
    assert forall|q: u64| side_map(s1).dom().contains(q) implies #[trigger] side_map(s1)[q]
        == side_map(s0).remove(price)[q] by {
        let i = price_index(s1, q);
        assert(s1[i].0 == q);
        lemma_price_index_of(s1, i);
        if i < idx {
            lemma_price_index_of(s0, i);
        } else {
            lemma_price_index_of(s0, i + 1);
        }
    }
    assert(side_map(s1) =~= side_map(s0).remove(price));
}

} // verus!
