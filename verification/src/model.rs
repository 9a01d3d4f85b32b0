use vstd::prelude::*;

use crate::exchange::{OrderbookError, Update, EXCHANGE_COUNT};

verus! {

/// The abstract state of an order book.
///
/// Prices are storage prices: the display price times `10^decimals`.
/// `bids[i]` and `asks[i]` hold the resting quantity of each exchange
/// (keyed by its index) at price `min_price + i`.
#[verifier::ext_equal]
pub struct BookModel {
    pub symbol: Seq<char>,
    pub levels: u32,
    pub decimals: u32,
    pub power_quantity: u32,
    pub min_price: u32,
    pub max_price: u32,
    pub bid_max: u32,
    pub ask_min: u32,
    pub bids: Seq<Map<u32, u64>>,
    pub asks: Seq<Map<u32, u64>>,
    pub last_update_ids: Seq<u64>,
}

/// A price-point side holds only known exchanges and only non-zero quantities.
pub open spec fn side_wf(side: Map<u32, u64>) -> bool {
    &&& side.dom().finite()
    &&& forall|k: u32| #[trigger] side.contains_key(k) ==> k < EXCHANGE_COUNT && side[k] > 0
}

impl BookModel {
    pub open spec fn in_range(self, p: int) -> bool {
        self.min_price <= p <= self.max_price
    }

    pub open spec fn bids_at(self, p: int) -> Map<u32, u64> {
        self.bids[p - self.min_price]
    }

    pub open spec fn asks_at(self, p: int) -> Map<u32, u64> {
        self.asks[p - self.min_price]
    }

    /// Some exchange bids at price `p`.
    pub open spec fn has_bid(self, p: int) -> bool {
        self.in_range(p) && !self.bids_at(p).is_empty()
    }

    /// Some exchange asks at price `p`.
    pub open spec fn has_ask(self, p: int) -> bool {
        self.in_range(p) && !self.asks_at(p).is_empty()
    }

    pub open spec fn has_bids(self) -> bool {
        exists|p: int| self.has_bid(p)
    }

    pub open spec fn has_asks(self) -> bool {
        exists|p: int| self.has_ask(p)
    }

    /// The book's invariant: the storage matches the price range, and
    /// `bid_max` / `ask_min` are the best bid and best ask (or their initial
    /// values while that side is empty).
    pub open spec fn inv(self) -> bool {
        &&& self.min_price <= self.max_price
        &&& self.bids.len() == self.max_price - self.min_price + 1
        &&& self.asks.len() == self.max_price - self.min_price + 1
        &&& self.last_update_ids.len() == EXCHANGE_COUNT
        &&& forall|i: int| 0 <= i < self.bids.len() ==> side_wf(#[trigger] self.bids[i])
        &&& forall|i: int| 0 <= i < self.asks.len() ==> side_wf(#[trigger] self.asks[i])
        &&& self.has_bids() ==> {
            &&& self.has_bid(self.bid_max as int)
            &&& forall|p: int| self.bid_max < p ==> !#[trigger] self.has_bid(p)
        }
        &&& !self.has_bids() ==> self.bid_max == 0
        &&& self.has_asks() ==> {
            &&& self.has_ask(self.ask_min as int)
            &&& forall|p: int| p < self.ask_min ==> !#[trigger] self.has_ask(p)
        }
        &&& !self.has_asks() ==> self.ask_min == u32::MAX
    }

    /// The highest price at or below `p` with a bid, or `min_price - 1` if none.
    pub open spec fn highest_bid_from(self, p: int) -> int
        decreases p - self.min_price + 1,
    {
        if p < self.min_price {
            self.min_price - 1
        } else if self.has_bid(p) {
            p
        } else {
            self.highest_bid_from(p - 1)
        }
    }

    /// The lowest price at or above `p` with an ask, or `max_price + 1` if none.
    pub open spec fn lowest_ask_from(self, p: int) -> int
        decreases self.max_price - p + 1,
    {
        if p > self.max_price {
            self.max_price + 1
        } else if self.has_ask(p) {
            p
        } else {
            self.lowest_ask_from(p + 1)
        }
    }

    pub open spec fn with_bids_at(self, p: int, side: Map<u32, u64>) -> BookModel {
        BookModel { bids: self.bids.update(p - self.min_price, side), ..self }
    }

    pub open spec fn with_asks_at(self, p: int, side: Map<u32, u64>) -> BookModel {
        BookModel { asks: self.asks.update(p - self.min_price, side), ..self }
    }

    /// The book after removing exchange `e`'s bid at price `p`.
    pub open spec fn bid_removed(self, e: u32, p: int) -> BookModel {
        self.with_bids_at(p, self.bids_at(p).remove(e))
    }

    /// The book after removing exchange `e`'s ask at price `p`.
    pub open spec fn ask_removed(self, e: u32, p: int) -> BookModel {
        self.with_asks_at(p, self.asks_at(p).remove(e))
    }

    /// Setting a bid is defined unless it removes the last bid at the best
    /// price and no lower bid is left to become the best.
    pub open spec fn bid_step_ok(self, e: u32, p: u32, q: u64) -> bool {
        let removed = self.bid_removed(e, p as int);
        !{
            &&& self.in_range(p as int)
            &&& q == 0
            &&& p == self.bid_max
            &&& removed.bids_at(p as int).is_empty()
            &&& removed.highest_bid_from(p - 1) < self.min_price
        }
    }

    /// Setting an ask is defined unless it removes the last ask at the best
    /// price and no higher ask is left to become the best.
    pub open spec fn ask_step_ok(self, e: u32, p: u32, q: u64) -> bool {
        let removed = self.ask_removed(e, p as int);
        !{
            &&& self.in_range(p as int)
            &&& q == 0
            &&& p == self.ask_min
            &&& removed.asks_at(p as int).is_empty()
            &&& removed.lowest_ask_from(p + 1) > self.max_price
        }
    }

    /// Exchange `e` sets its bid at price `p` to quantity `q`; zero removes it.
    /// Prices outside the range are ignored.
    pub open spec fn bid_step(self, e: u32, p: u32, q: u64) -> BookModel {
        if !self.in_range(p as int) {
            self
        } else if q > 0 {
            BookModel {
                bid_max: if p > self.bid_max { p } else { self.bid_max },
                ..self.with_bids_at(p as int, self.bids_at(p as int).insert(e, q))
            }
        } else {
            let removed = self.bid_removed(e, p as int);
            if p == self.bid_max && removed.bids_at(p as int).is_empty() {
                BookModel { bid_max: removed.highest_bid_from(p - 1) as u32, ..removed }
            } else {
                removed
            }
        }
    }

    /// Exchange `e` sets its ask at price `p` to quantity `q`; zero removes it.
    /// Prices outside the range are ignored.
    pub open spec fn ask_step(self, e: u32, p: u32, q: u64) -> BookModel {
        if !self.in_range(p as int) {
            self
        } else if q > 0 {
            BookModel {
                ask_min: if p < self.ask_min { p } else { self.ask_min },
                ..self.with_asks_at(p as int, self.asks_at(p as int).insert(e, q))
            }
        } else {
            let removed = self.ask_removed(e, p as int);
            if p == self.ask_min && removed.asks_at(p as int).is_empty() {
                BookModel { ask_min: removed.lowest_ask_from(p + 1) as u32, ..removed }
            } else {
                removed
            }
        }
    }
}


/// What `highest_bid_from` finds: a bid (or nothing), with no bid above it up to `k`.
pub proof fn lemma_highest_bid_from(m: BookModel, k: int)
    ensures
        k >= m.min_price - 1 ==> m.highest_bid_from(k) <= k,
        m.highest_bid_from(k) >= m.min_price - 1,
        m.highest_bid_from(k) >= m.min_price ==> m.has_bid(m.highest_bid_from(k)),
        forall|r: int| m.highest_bid_from(k) < r <= k ==> !#[trigger] m.has_bid(r),
    decreases k - m.min_price + 1,
{
    if k < m.min_price {
    } else if m.has_bid(k) {
    } else {
        lemma_highest_bid_from(m, k - 1);
    }
}

/// What `lowest_ask_from` finds: an ask (or nothing), with no ask below it down to `k`.
pub proof fn lemma_lowest_ask_from(m: BookModel, k: int)
    ensures
        k <= m.max_price + 1 ==> m.lowest_ask_from(k) >= k,
        m.lowest_ask_from(k) <= m.max_price + 1,
        m.lowest_ask_from(k) <= m.max_price ==> m.has_ask(m.lowest_ask_from(k)),
        forall|r: int| k <= r < m.lowest_ask_from(k) ==> !#[trigger] m.has_ask(r),
    decreases m.max_price - k + 1,
{
    if k > m.max_price {
    } else if m.has_ask(k) {
    } else {
        lemma_lowest_ask_from(m, k + 1);
    }
}

/// Every defined bid step keeps the invariant.
pub proof fn lemma_bid_step_inv(m: BookModel, e: u32, p: u32, q: u64)
    requires
        m.inv(),
        e < EXCHANGE_COUNT,
        m.bid_step_ok(e, p, q),
    ensures
        m.bid_step(e, p, q).inv(),
{
    let n = m.bid_step(e, p, q);
    if !m.in_range(p as int) {
        return;
    }
    let i = p - m.min_price;
    assert(forall|r: int| m.in_range(r) && r != p ==> n.bids_at(r) == m.bids_at(r));
    assert(forall|r: int| r != p ==> (#[trigger] n.has_bid(r) == m.has_bid(r)));
    assert(n.asks == m.asks);
    assert(forall|r: int| #[trigger] n.has_ask(r) == m.has_ask(r));
    if n.has_asks() {
        let r = choose|r: int| n.has_ask(r);
        assert(m.has_ask(r));
    }
    if m.has_asks() {
        let r = choose|r: int| m.has_ask(r);
        assert(n.has_ask(r));
    }
    if q > 0 {
        assert(n.bids_at(p as int) == m.bids_at(p as int).insert(e, q));
        assert(n.bids_at(p as int).contains_key(e));
        assert(n.has_bid(p as int));
        assert(side_wf(n.bids[i]));
        assert forall|j: int| 0 <= j < n.bids.len() implies side_wf(#[trigger] n.bids[j]) by {
            if j != i {
                assert(n.bids[j] == m.bids[j]);
            }
        }
        if m.has_bids() {
            assert(m.has_bid(m.bid_max as int));
        } else {
            assert(forall|r: int| !#[trigger] m.has_bid(r));
        }
        assert(n.has_bid(n.bid_max as int));
        assert(n.has_bids());
        assert forall|r: int| n.bid_max < r implies !#[trigger] n.has_bid(r) by {
            assert(r != p);
            if m.has_bids() {
            } else {
                assert(!m.has_bid(r));
            }
        }
    } else {
        let removed = m.bid_removed(e, p as int);
        assert(removed.bids_at(p as int) == m.bids_at(p as int).remove(e));
        assert(forall|r: int| r != p ==> (#[trigger] removed.has_bid(r) == m.has_bid(r)));
        assert(side_wf(n.bids[i]));
        assert forall|j: int| 0 <= j < n.bids.len() implies side_wf(#[trigger] n.bids[j]) by {
            if j != i {
                assert(n.bids[j] == m.bids[j]);
            }
        }
        if !m.has_bids() {
            assert(forall|r: int| !#[trigger] m.has_bid(r));
            assert(!m.has_bid(p as int));
            assert(removed.bids_at(p as int).is_empty());
            assert(forall|r: int| !#[trigger] n.has_bid(r));
            if p == m.bid_max {
                lemma_highest_bid_from(removed, p - 1);
                assert(false);
            }
        } else if p == m.bid_max && removed.bids_at(p as int).is_empty() {
            let h = removed.highest_bid_from(p - 1);
            lemma_highest_bid_from(removed, p - 1);
            assert(h >= m.min_price);
            assert(n.has_bid(h));
            assert(n.bids == removed.bids);
            assert(n.has_bids());
            assert forall|r: int| n.bid_max < r implies !#[trigger] n.has_bid(r) by {
                if r <= p - 1 {
                    assert(!removed.has_bid(r));
                } else if r == p {
                } else {
                    assert(!m.has_bid(r));
                }
            }
        } else {
            assert(m.has_bid(m.bid_max as int));
            assert(n.has_bid(n.bid_max as int));
            assert forall|r: int| n.bid_max < r implies !#[trigger] n.has_bid(r) by {
                if r == p {
                    assert(!m.has_bid(r));
                    assert(m.bids_at(r).is_empty());
                    assert(n.bids_at(r) =~= m.bids_at(r));
                }
            }
        }
    }
}

/// Every defined ask step keeps the invariant.
pub proof fn lemma_ask_step_inv(m: BookModel, e: u32, p: u32, q: u64)
    requires
        m.inv(),
        e < EXCHANGE_COUNT,
        m.ask_step_ok(e, p, q),
    ensures
        m.ask_step(e, p, q).inv(),
{
    let n = m.ask_step(e, p, q);
    if !m.in_range(p as int) {
        return;
    }
    let i = p - m.min_price;
    assert(forall|r: int| m.in_range(r) && r != p ==> n.asks_at(r) == m.asks_at(r));
    assert(forall|r: int| r != p ==> (#[trigger] n.has_ask(r) == m.has_ask(r)));
    assert(n.bids == m.bids);
    assert(forall|r: int| #[trigger] n.has_bid(r) == m.has_bid(r));
    if n.has_bids() {
        let r = choose|r: int| n.has_bid(r);
        assert(m.has_bid(r));
    }
    if m.has_bids() {
        let r = choose|r: int| m.has_bid(r);
        assert(n.has_bid(r));
    }
    if q > 0 {
        assert(n.asks_at(p as int) == m.asks_at(p as int).insert(e, q));
        assert(n.asks_at(p as int).contains_key(e));
        assert(n.has_ask(p as int));
        assert(side_wf(n.asks[i]));
        assert forall|j: int| 0 <= j < n.asks.len() implies side_wf(#[trigger] n.asks[j]) by {
            if j != i {
                assert(n.asks[j] == m.asks[j]);
            }
        }
        if m.has_asks() {
            assert(m.has_ask(m.ask_min as int));
        } else {
            assert(forall|r: int| !#[trigger] m.has_ask(r));
        }
        assert(n.has_ask(n.ask_min as int));
        assert(n.has_asks());
        assert forall|r: int| r < n.ask_min implies !#[trigger] n.has_ask(r) by {
            assert(r != p);
            if m.has_asks() {
            } else {
                assert(!m.has_ask(r));
            }
        }
    } else {
        let removed = m.ask_removed(e, p as int);
        assert(removed.asks_at(p as int) == m.asks_at(p as int).remove(e));
        assert(forall|r: int| r != p ==> (#[trigger] removed.has_ask(r) == m.has_ask(r)));
        assert(side_wf(n.asks[i]));
        assert forall|j: int| 0 <= j < n.asks.len() implies side_wf(#[trigger] n.asks[j]) by {
            if j != i {
                assert(n.asks[j] == m.asks[j]);
            }
        }
        if !m.has_asks() {
            assert(forall|r: int| !#[trigger] m.has_ask(r));
            assert(!m.has_ask(p as int));
            assert(removed.asks_at(p as int).is_empty());
            assert(forall|r: int| !#[trigger] n.has_ask(r));
            if p == m.ask_min {
                lemma_lowest_ask_from(removed, p + 1);
                assert(false);
            }
        } else if p == m.ask_min && removed.asks_at(p as int).is_empty() {
            let h = removed.lowest_ask_from(p + 1);
            lemma_lowest_ask_from(removed, p + 1);
            assert(h <= m.max_price);
            assert(n.has_ask(h));
            assert(n.asks == removed.asks);
            assert(n.has_asks());
            assert forall|r: int| r < n.ask_min implies !#[trigger] n.has_ask(r) by {
                if r >= p + 1 {
                    assert(!removed.has_ask(r));
                } else if r == p {
                } else {
                    assert(!m.has_ask(r));
                }
            }
        } else {
            assert(m.has_ask(m.ask_min as int));
            assert(n.has_ask(n.ask_min as int));
            assert forall|r: int| r < n.ask_min implies !#[trigger] n.has_ask(r) by {
                if r == p {
                    assert(!m.has_ask(r));
                    assert(m.asks_at(r).is_empty());
                    assert(n.asks_at(r) =~= m.asks_at(r));
                }
            }
        }
    }
}

impl BookModel {
    /// The book after applying exchange `e`'s bid levels in order.
    pub open spec fn bids_applied(self, e: u32, levels: Seq<(u32, u64)>) -> BookModel
        decreases levels.len(),
    {
        if levels.len() == 0 {
            self
        } else {
            self.bids_applied(e, levels.drop_last()).bid_step(e, levels.last().0, levels.last().1)
        }
    }

    /// Every bid level of the sequence is a defined step where it is applied.
    pub open spec fn bids_apply_ok(self, e: u32, levels: Seq<(u32, u64)>) -> bool
        decreases levels.len(),
    {
        levels.len() == 0 || {
            &&& self.bids_apply_ok(e, levels.drop_last())
            &&& self.bids_applied(e, levels.drop_last()).bid_step_ok(
                e,
                levels.last().0,
                levels.last().1,
            )
        }
    }

    /// The book after applying exchange `e`'s ask levels in order.
    pub open spec fn asks_applied(self, e: u32, levels: Seq<(u32, u64)>) -> BookModel
        decreases levels.len(),
    {
        if levels.len() == 0 {
            self
        } else {
            self.asks_applied(e, levels.drop_last()).ask_step(e, levels.last().0, levels.last().1)
        }
    }

    /// Every ask level of the sequence is a defined step where it is applied.
    pub open spec fn asks_apply_ok(self, e: u32, levels: Seq<(u32, u64)>) -> bool
        decreases levels.len(),
    {
        levels.len() == 0 || {
            &&& self.asks_apply_ok(e, levels.drop_last())
            &&& self.asks_applied(e, levels.drop_last()).ask_step_ok(
                e,
                levels.last().0,
                levels.last().1,
            )
        }
    }

    pub open spec fn with_last_update_id(self, i: u32, id: u64) -> BookModel {
        BookModel { last_update_ids: self.last_update_ids.update(i as int, id), ..self }
    }

    /// The book after an update: an update without exchange is an error; an
    /// update whose id is not newer than the last one seen from its exchange
    /// is skipped; otherwise its id is recorded and its bids, then its asks,
    /// are applied in order.
    pub open spec fn update_result(self, u: Update) -> Result<BookModel, OrderbookError> {
        match u.exchange {
            None => Err(OrderbookError::MissingExchange),
            Some(x) => {
                let i = x.spec_index();
                if u.last_update_id > self.last_update_ids[i as int] {
                    let recorded = self.with_last_update_id(i, u.last_update_id);
                    Ok(recorded.bids_applied(i, u.bids@).asks_applied(i, u.asks@))
                } else {
                    Ok(self)
                }
            },
        }
    }

    /// Every level step of the update is defined.
    pub open spec fn update_ok(self, u: Update) -> bool {
        match u.exchange {
            None => true,
            Some(x) => {
                let i = x.spec_index();
                let recorded = self.with_last_update_id(i, u.last_update_id);
                u.last_update_id > self.last_update_ids[i as int] ==> {
                    &&& recorded.bids_apply_ok(i, u.bids@)
                    &&& recorded.bids_applied(i, u.bids@).asks_apply_ok(i, u.asks@)
                }
            },
        }
    }

    /// The book after a sequence of updates, stopping at the first error.
    pub open spec fn updates_result(self, us: Seq<Update>) -> Result<BookModel, OrderbookError>
        decreases us.len(),
    {
        if us.len() == 0 {
            Ok(self)
        } else {
            match self.updates_result(us.drop_last()) {
                Ok(m) => m.update_result(us.last()),
                Err(e) => Err(e),
            }
        }
    }

    /// Every update of the sequence that is reached is defined.
    pub open spec fn updates_ok(self, us: Seq<Update>) -> bool
        decreases us.len(),
    {
        us.len() == 0 || {
            &&& self.updates_ok(us.drop_last())
            &&& match self.updates_result(us.drop_last()) {
                Ok(m) => m.update_ok(us.last()),
                Err(_) => true,
            }
        }
    }
}

/// A book with no levels over the storage prices `min_price ..= max_price`.
pub open spec fn empty_book(
    symbol: Seq<char>,
    levels: u32,
    min_price: u32,
    max_price: u32,
    decimals: u32,
) -> BookModel {
    BookModel {
        symbol,
        levels,
        decimals,
        power_quantity: crate::orderbook::POWER_QUANTITY,
        min_price,
        max_price,
        bid_max: 0,
        ask_min: u32::MAX,
        bids: Seq::new((max_price - min_price + 1) as nat, |i: int| Map::<u32, u64>::empty()),
        asks: Seq::new((max_price - min_price + 1) as nat, |i: int| Map::<u32, u64>::empty()),
        last_update_ids: Seq::new(EXCHANGE_COUNT as nat, |i: int| 0u64),
    }
}

/// A defined sequence of bid levels has defined prefixes.
pub proof fn lemma_bids_apply_ok_prefix(m: BookModel, e: u32, s: Seq<(u32, u64)>, k: int)
    requires
        0 <= k <= s.len(),
        m.bids_apply_ok(e, s),
    ensures
        m.bids_apply_ok(e, s.take(k)),
    decreases s.len(),
{
    if k == s.len() {
        assert(s.take(k) =~= s);
    } else {
        lemma_bids_apply_ok_prefix(m, e, s.drop_last(), k);
        assert(s.drop_last().take(k) =~= s.take(k));
    }
}

/// A defined sequence of ask levels has defined prefixes.
pub proof fn lemma_asks_apply_ok_prefix(m: BookModel, e: u32, s: Seq<(u32, u64)>, k: int)
    requires
        0 <= k <= s.len(),
        m.asks_apply_ok(e, s),
    ensures
        m.asks_apply_ok(e, s.take(k)),
    decreases s.len(),
{
    if k == s.len() {
        assert(s.take(k) =~= s);
    } else {
        lemma_asks_apply_ok_prefix(m, e, s.drop_last(), k);
        assert(s.drop_last().take(k) =~= s.take(k));
    }
}

/// A defined sequence of updates has defined prefixes.
pub proof fn lemma_updates_ok_prefix(m: BookModel, s: Seq<Update>, k: int)
    requires
        0 <= k <= s.len(),
        m.updates_ok(s),
    ensures
        m.updates_ok(s.take(k)),
    decreases s.len(),
{
    if k == s.len() {
        assert(s.take(k) =~= s);
    } else {
        lemma_updates_ok_prefix(m, s.drop_last(), k);
        assert(s.drop_last().take(k) =~= s.take(k));
    }
}

/// Once a prefix of the updates fails, the whole sequence fails the same
/// way, and it is defined as far as that prefix is.
pub proof fn lemma_updates_stop_at_error(m: BookModel, s: Seq<Update>, k: int)
    requires
        0 <= k <= s.len(),
        m.updates_result(s.take(k)) is Err,
    ensures
        m.updates_result(s) == m.updates_result(s.take(k)),
        m.updates_ok(s) == m.updates_ok(s.take(k)),
    decreases s.len(),
{
    if k == s.len() {
        assert(s.take(k) =~= s);
    } else {
        assert(s.drop_last().take(k) =~= s.take(k));
        lemma_updates_stop_at_error(m, s.drop_last(), k);
    }
}

/// Recording an update id keeps the invariant.
pub proof fn lemma_with_last_update_id_inv(m: BookModel, i: u32, id: u64)
    requires
        m.inv(),
        i < EXCHANGE_COUNT,
    ensures
        m.with_last_update_id(i, id).inv(),
{
    let n = m.with_last_update_id(i, id);
    assert(forall|r: int| #[trigger] n.has_bid(r) == m.has_bid(r));
    assert(forall|r: int| #[trigger] n.has_ask(r) == m.has_ask(r));
    if m.has_bids() {
        let r = choose|r: int| m.has_bid(r);
        assert(n.has_bid(r));
    }
    if n.has_bids() {
        let r = choose|r: int| n.has_bid(r);
        assert(m.has_bid(r));
    }
    if m.has_asks() {
        let r = choose|r: int| m.has_ask(r);
        assert(n.has_ask(r));
    }
    if n.has_asks() {
        let r = choose|r: int| n.has_ask(r);
        assert(m.has_ask(r));
    }
}

/// `highest_bid_from(k)` only reads the bids at prices up to `k`.
pub proof fn lemma_highest_bid_from_below(m1: BookModel, m2: BookModel, k: int)
    requires
        m1.min_price == m2.min_price,
        forall|r: int| r <= k ==> #[trigger] m1.has_bid(r) == m2.has_bid(r),
    ensures
        m1.highest_bid_from(k) == m2.highest_bid_from(k),
    decreases k - m1.min_price + 1,
{
    if k >= m1.min_price {
        lemma_highest_bid_from_below(m1, m2, k - 1);
    }
}

/// `lowest_ask_from(k)` only reads the asks at prices from `k` up.
pub proof fn lemma_lowest_ask_from_above(m1: BookModel, m2: BookModel, k: int)
    requires
        m1.max_price == m2.max_price,
        forall|r: int| r >= k ==> #[trigger] m1.has_ask(r) == m2.has_ask(r),
    ensures
        m1.lowest_ask_from(k) == m2.lowest_ask_from(k),
    decreases m1.max_price - k + 1,
{
    if k <= m1.max_price {
        lemma_lowest_ask_from_above(m1, m2, k + 1);
    }
}

/// Exchange `k`'s level is the same on both sides: present in both with the
/// same quantity, or absent from both.
pub open spec fn same_level(a: Map<u32, u64>, b: Map<u32, u64>, k: u32) -> bool {
    &&& a.contains_key(k) == b.contains_key(k)
    &&& a.contains_key(k) ==> a[k] == b[k]
}

/// Exchange `k` rests with quantity `q` on this side; a zero quantity means
/// it does not rest there.
pub open spec fn level_is(side: Map<u32, u64>, k: u32, q: u64) -> bool {
    if q > 0 {
        side.contains_key(k) && side[k] == q
    } else {
        !side.contains_key(k)
    }
}

/// Some level of `s` is at price `r`.
pub open spec fn mentions(s: Seq<(u32, u64)>, r: int) -> bool {
    exists|i: int| 0 <= i < s.len() && #[trigger] s[i].0 == r
}

/// `s[i]` is the last level of `s` at its price.
pub open spec fn last_at(s: Seq<(u32, u64)>, i: int) -> bool {
    &&& 0 <= i < s.len()
    &&& forall|j: int| i < j < s.len() ==> #[trigger] s[j].0 != s[i].0
}

impl BookModel {
    /// The storage matches the price range.
    pub open spec fn shaped(self) -> bool {
        &&& self.min_price <= self.max_price
        &&& self.bids.len() == self.max_price - self.min_price + 1
        &&& self.asks.len() == self.max_price - self.min_price + 1
    }
}

} // verus!
