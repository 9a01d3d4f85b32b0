use std::collections::HashMap;
use vstd::prelude::*;

use crate::exchange::{ExchangeType, OrderbookError, Update, EXCHANGE_COUNT};
use crate::model::{
    empty_book, lemma_ask_step_inv, lemma_asks_apply_ok_prefix, lemma_bid_step_inv,
    lemma_bids_apply_ok_prefix, lemma_highest_bid_from_below, lemma_lowest_ask_from_above,
    lemma_updates_ok_prefix, lemma_updates_stop_at_error, lemma_with_last_update_id_inv, side_wf,
    BookModel,
};
use crate::summary::{
    insert_asc, insert_desc, law_summary_starts_at_best_prices, lemma_side_levels_len,
    lemma_sort_asc_len, lemma_sort_desc_len, side_levels, sort_by_quantity_asc,
    sort_by_quantity_desc, Level, Summary,
};

verus! {

broadcast use vstd::std_specs::hash::group_hash_axioms;

/// Storage price.
pub type Price = u32;

/// Storage quantity.
pub type Quantity = u64;

/// Number of decimals of a storage quantity.
pub const POWER_QUANTITY: u32 = 8;

/// The levels resting at one price: quantity per exchange index.
/// Entries will at most be equal to the number of exchanges.
#[derive(Debug)]
pub struct PricePoint {
    pub bids: HashMap<u32, Quantity>,
    pub asks: HashMap<u32, Quantity>,
}

impl Default for PricePoint {
    fn default() -> (pp: Self)
        ensures
            pp.bids@ == Map::<u32, Quantity>::empty(),
            pp.asks@ == Map::<u32, Quantity>::empty(),
    {
        PricePoint {
            bids: HashMap::with_capacity(EXCHANGE_COUNT as usize),
            asks: HashMap::with_capacity(EXCHANGE_COUNT as usize),
        }
    }
}

/// Order book over the storage prices `min_price ..= max_price`.
#[derive(Debug)]
pub struct Orderbook {
    pub symbol: String,
    pub ask_min: Price,
    pub bid_max: Price,
    pub price_points: Vec<PricePoint>,
    pub min_price: Price,
    pub max_price: Price,
    levels: u32,
    decimals: u32,
    power_quantity: u32,
    last_update_ids: Vec<u64>,
}

impl View for Orderbook {
    type V = BookModel;

    closed spec fn view(&self) -> BookModel {
        BookModel {
            symbol: self.symbol@,
            levels: self.levels,
            decimals: self.decimals,
            power_quantity: self.power_quantity,
            min_price: self.min_price,
            max_price: self.max_price,
            bid_max: self.bid_max,
            ask_min: self.ask_min,
            bids: self.price_points@.map_values(|pp: PricePoint| pp.bids@),
            asks: self.price_points@.map_values(|pp: PricePoint| pp.asks@),
            last_update_ids: self.last_update_ids@,
        }
    }
}

impl Orderbook {
    /// The book is well formed: see [`BookModel::inv`].
    pub open spec fn wf(&self) -> bool {
        self@.inv()
    }

    /// Retrieves a price point from storage.
    pub fn get_price_point(&self, price: Price) -> (pp: &PricePoint)
        requires
            self@.in_range(price as int),
            self@.bids.len() == self@.max_price - self@.min_price + 1,
        ensures
            pp.bids@ == self@.bids_at(price as int),
            pp.asks@ == self@.asks_at(price as int),
    {
        &self.price_points[(price - self.min_price) as usize]
    }

    /// Retrieves a mutable price point from storage.
    pub fn get_price_point_mut(&mut self, price: Price) -> (pp: &mut PricePoint)
        requires
            old(self)@.in_range(price as int),
            old(self)@.bids.len() == old(self)@.max_price - old(self)@.min_price + 1,
        ensures
            pp.bids@ == old(self)@.bids_at(price as int),
            pp.asks@ == old(self)@.asks_at(price as int),
            final(self)@ =~~= old(self)@.with_bids_at(price as int, final(pp).bids@).with_asks_at(
                price as int,
                final(pp).asks@,
            ),
    {
        &mut self.price_points[(price - self.min_price) as usize]
    }
}

impl Orderbook {
    /// The highest price below `price` with a bid, if any.
    fn find_bid_below(&self, price: Price) -> (r: Option<Price>)
        requires
            self@.in_range(price as int),
            self@.bids.len() == self@.max_price - self@.min_price + 1,
        ensures
            match r {
                Some(q) => q as int == self@.highest_bid_from(price - 1) && q >= self@.min_price,
                None => self@.highest_bid_from(price - 1) < self@.min_price,
            },
    {
        let mut level_price = price;
        while level_price > self.min_price
            invariant
                self@.min_price <= level_price <= price,
                self@.in_range(price as int),
                self@.bids.len() == self@.max_price - self@.min_price + 1,
                self@.highest_bid_from(level_price - 1) == self@.highest_bid_from(price - 1),
            decreases level_price,
        {
            level_price -= 1;
            if !self.get_price_point(level_price).bids.is_empty() {
                return Some(level_price);
            }
        }
        None
    }

    /// The lowest price above `price` with an ask, if any.
    fn find_ask_above(&self, price: Price) -> (r: Option<Price>)
        requires
            self@.in_range(price as int),
            self@.bids.len() == self@.max_price - self@.min_price + 1,
        ensures
            match r {
                Some(q) => q as int == self@.lowest_ask_from(price + 1) && q <= self@.max_price,
                None => self@.lowest_ask_from(price + 1) > self@.max_price,
            },
    {
        let mut level_price = price;
        while level_price < self.max_price
            invariant
                price <= level_price <= self@.max_price,
                self@.in_range(price as int),
                self@.bids.len() == self@.max_price - self@.min_price + 1,
                self@.lowest_ask_from(level_price + 1) == self@.lowest_ask_from(price + 1),
            decreases self@.max_price - level_price,
        {
            level_price += 1;
            if !self.get_price_point(level_price).asks.is_empty() {
                return Some(level_price);
            }
        }
        None
    }

    /// Applies one bid level; returns false, with the book left in an
    /// unspecified state, exactly where the step is not defined.
    fn try_add_bid(&mut self, exchange: ExchangeType, price: Price, quantity: Quantity) -> (ok:
        bool)
        requires
            old(self).wf(),
        ensures
            ok == old(self)@.bid_step_ok(exchange.spec_index(), price, quantity),
            ok ==> final(self).wf() && final(self)@ == old(self)@.bid_step(
                exchange.spec_index(),
                price,
                quantity,
            ),
    {
        let level_price = price;
        if level_price > self.max_price || level_price < self.min_price {
            return true;
        }
        let e = exchange.index();
        proof {
            if self@.bid_step_ok(e, price, quantity) {
                lemma_bid_step_inv(self@, e, price, quantity);
            }
        }
        let bid_max = self.bid_max;
        let ghost m0 = self@;
        let ghost i = price - m0.min_price;
        if quantity > 0 {
            self.get_price_point_mut(level_price).bids.insert(e, quantity);
            proof {
                assert(self@.bids =~= m0.bids.update(i, m0.bids_at(price as int).insert(e, quantity)));
                assert(self@.asks =~= m0.asks);
            }
            if level_price > self.bid_max {
                self.bid_max = level_price;
            }
            true
        } else {
            let pp = self.get_price_point_mut(level_price);
            pp.bids.remove(&e);
            let emptied = pp.bids.is_empty();
            proof {
                assert(self@.bids =~= m0.bids.update(i, m0.bids_at(price as int).remove(e)));
                assert(self@.asks =~= m0.asks);
                assert(self@ == m0.bid_removed(e, price as int));
            }
            if level_price == bid_max && emptied {
                match self.find_bid_below(level_price) {
                    Some(q) => {
                        self.bid_max = q;
                        true
                    },
                    None => false,
                }
            } else {
                true
            }
        }
    }

    /// Applies one ask level; returns false, with the book left in an
    /// unspecified state, exactly where the step is not defined.
    fn try_add_ask(&mut self, exchange: ExchangeType, price: Price, quantity: Quantity) -> (ok:
        bool)
        requires
            old(self).wf(),
        ensures
            ok == old(self)@.ask_step_ok(exchange.spec_index(), price, quantity),
            ok ==> final(self).wf() && final(self)@ == old(self)@.ask_step(
                exchange.spec_index(),
                price,
                quantity,
            ),
    {
        let level_price = price;
        if level_price > self.max_price || level_price < self.min_price {
            return true;
        }
        let e = exchange.index();
        proof {
            if self@.ask_step_ok(e, price, quantity) {
                lemma_ask_step_inv(self@, e, price, quantity);
            }
        }
        let ask_min = self.ask_min;
        let ghost m0 = self@;
        let ghost i = price - m0.min_price;
        if quantity > 0 {
            self.get_price_point_mut(level_price).asks.insert(e, quantity);
            proof {
                assert(self@.asks =~= m0.asks.update(i, m0.asks_at(price as int).insert(e, quantity)));
                assert(self@.bids =~= m0.bids);
            }
            if level_price < self.ask_min {
                self.ask_min = level_price;
            }
            true
        } else {
            let pp = self.get_price_point_mut(level_price);
            pp.asks.remove(&e);
            let emptied = pp.asks.is_empty();
            proof {
                assert(self@.asks =~= m0.asks.update(i, m0.asks_at(price as int).remove(e)));
                assert(self@.bids =~= m0.bids);
                assert(self@ == m0.ask_removed(e, price as int));
            }
            if level_price == ask_min && emptied {
                match self.find_ask_above(level_price) {
                    Some(q) => {
                        self.ask_min = q;
                        true
                    },
                    None => false,
                }
            } else {
                true
            }
        }
    }

    /// Adds, modifies or removes a bid: exchange `exchange` now bids
    /// `quantity` at storage price `price`, and a zero quantity removes its bid.
    /// Prices outside `min_price ..= max_price` are ignored.
    pub fn add_bid(&mut self, exchange: ExchangeType, price: Price, quantity: Quantity)
        requires
            old(self).wf(),
            old(self)@.bid_step_ok(exchange.spec_index(), price, quantity),
        ensures
            final(self).wf(),
            final(self)@ == old(self)@.bid_step(exchange.spec_index(), price, quantity),
    {
        let _ = self.try_add_bid(exchange, price, quantity);
    }

    /// Adds, modifies or removes an ask: exchange `exchange` now asks
    /// `quantity` at storage price `price`, and a zero quantity removes its ask.
    /// Prices outside `min_price ..= max_price` are ignored.
    pub fn add_ask(&mut self, exchange: ExchangeType, price: Price, quantity: Quantity)
        requires
            old(self).wf(),
            old(self)@.ask_step_ok(exchange.spec_index(), price, quantity),
        ensures
            final(self).wf(),
            final(self)@ == old(self)@.ask_step(exchange.spec_index(), price, quantity),
    {
        let _ = self.try_add_ask(exchange, price, quantity);
    }
}

impl Orderbook {
    /// Applies an update; returns `None`, with the book left in an
    /// unspecified state, exactly where some level step is not defined.
    fn try_update(&mut self, update: &Update) -> (r: Option<Result<(), OrderbookError>>)
        requires
            old(self).wf(),
        ensures
            r is Some <==> old(self)@.update_ok(*update),
            r matches Some(res) ==> final(self).wf() && match old(self)@.update_result(*update) {
                Ok(m) => res is Ok && final(self)@ == m,
                Err(e) => res == Err::<(), OrderbookError>(e) && final(self)@ == old(self)@,
            },
    {
        let exchange = match update.exchange {
            None => return Some(Err(OrderbookError::MissingExchange)),
            Some(x) => x,
        };
        let e = exchange.index();
        let idx = e as usize;
        if update.last_update_id > self.last_update_ids[idx] {
            self.last_update_ids.set(idx, update.last_update_id);
        } else {
            return Some(Ok(()));
        }
        let ghost recorded = old(self)@.with_last_update_id(e, update.last_update_id);
        proof {
            assert(self@.last_update_ids =~= recorded.last_update_ids);
            assert(self@ == recorded);
            lemma_with_last_update_id_inv(old(self)@, e, update.last_update_id);
        }
        let ghost bids = update.bids@;
        let mut i: usize = 0;
        while i < update.bids.len()
            invariant
                0 <= i <= bids.len(),
                bids == update.bids@,
                e == exchange.spec_index(),
                self.wf(),
                self@ == recorded.bids_applied(e, bids.take(i as int)),
                recorded.bids_apply_ok(e, bids.take(i as int)),
                old(self)@.update_ok(*update) ==> recorded.bids_apply_ok(e, bids),
            decreases bids.len() - i,
        {
            let (p, q) = update.bids[i];
            proof {
                assert(bids.take(i + 1).drop_last() =~= bids.take(i as int));
                if recorded.bids_apply_ok(e, bids) {
                    lemma_bids_apply_ok_prefix(recorded, e, bids, i + 1);
                }
            }
            if !self.try_add_bid(exchange, p, q) {
                return None;
            }
            i += 1;
        }
        proof {
            assert(bids.take(i as int) =~= bids);
        }
        let ghost after_bids = self@;
        let ghost asks = update.asks@;
        let mut j: usize = 0;
        while j < update.asks.len()
            invariant
                0 <= j <= asks.len(),
                asks == update.asks@,
                e == exchange.spec_index(),
                self.wf(),
                after_bids == recorded.bids_applied(e, bids),
                recorded.bids_apply_ok(e, bids),
                self@ == after_bids.asks_applied(e, asks.take(j as int)),
                after_bids.asks_apply_ok(e, asks.take(j as int)),
                old(self)@.update_ok(*update) ==> after_bids.asks_apply_ok(e, asks),
            decreases asks.len() - j,
        {
            let (p, q) = update.asks[j];
            proof {
                assert(asks.take(j + 1).drop_last() =~= asks.take(j as int));
                if after_bids.asks_apply_ok(e, asks) {
                    lemma_asks_apply_ok_prefix(after_bids, e, asks, j + 1);
                }
            }
            if !self.try_add_ask(exchange, p, q) {
                return None;
            }
            j += 1;
        }
        proof {
            assert(asks.take(j as int) =~= asks);
        }
        Some(Ok(()))
    }

    /// Processes an update from an exchange: an update without exchange is
    /// refused; one whose id is not newer than the last one seen from its
    /// exchange is skipped; otherwise its bids, then its asks, are applied.
    pub fn update(&mut self, update: Update) -> (r: Result<(), OrderbookError>)
        requires
            old(self).wf(),
            old(self)@.update_ok(update),
        ensures
            final(self).wf(),
            match old(self)@.update_result(update) {
                Ok(m) => r is Ok && final(self)@ == m,
                Err(e) => r == Err::<(), OrderbookError>(e) && final(self)@ == old(self)@,
            },
    {
        self.try_update(&update).unwrap()
    }

    /// A copy of the book with the same contents.
    fn duplicate(&self) -> (r: Orderbook)
        ensures
            r@ == self@,
    {
        let mut price_points: Vec<PricePoint> = Vec::new();
        let mut k: usize = 0;
        while k < self.price_points.len()
            invariant
                0 <= k <= self.price_points@.len(),
                price_points@.len() == k,
                forall|j: int|
                    0 <= j < k ==> (#[trigger] price_points@[j]).bids@ == self.price_points@[j].bids@
                        && price_points@[j].asks@ == self.price_points@[j].asks@,
            decreases self.price_points@.len() - k,
        {
            let pp = &self.price_points[k];
            price_points.push(PricePoint { bids: pp.bids.clone(), asks: pp.asks.clone() });
            k += 1;
        }
        let mut last_update_ids: Vec<u64> = Vec::new();
        let mut k: usize = 0;
        while k < self.last_update_ids.len()
            invariant
                0 <= k <= self.last_update_ids@.len(),
                last_update_ids@ =~= self.last_update_ids@.take(k as int),
            decreases self.last_update_ids@.len() - k,
        {
            last_update_ids.push(self.last_update_ids[k]);
            k += 1;
        }
        let r = Orderbook {
            symbol: self.symbol.clone(),
            ask_min: self.ask_min,
            bid_max: self.bid_max,
            price_points,
            min_price: self.min_price,
            max_price: self.max_price,
            levels: self.levels,
            decimals: self.decimals,
            power_quantity: self.power_quantity,
            last_update_ids,
        };
        proof {
            assert(r@.bids =~= self@.bids);
            assert(r@.asks =~= self@.asks);
            assert(r@.last_update_ids =~= self@.last_update_ids);
        }
        r
    }

    /// Whether every level step of `update` is defined on this book, that
    /// is, whether [`Orderbook::update`] may be called with it.
    pub fn can_update(&self, update: &Update) -> (r: bool)
        requires
            self.wf(),
        ensures
            r == self@.update_ok(*update),
    {
        let mut copy = self.duplicate();
        copy.try_update(update).is_some()
    }
}

impl Orderbook {
    /// A book with no levels over the storage prices `min_price ..= max_price`.
    fn empty(symbol: &String, levels: u32, min_price: Price, max_price: Price, decimals: u32) -> (r:
        Orderbook)
        requires
            min_price <= max_price,
            max_price - min_price + 2 <= usize::MAX,
        ensures
            r.wf(),
            r@ == empty_book(symbol@, levels, min_price, max_price, decimals),
    {
        let count = (max_price - min_price) as usize + 1;
        let mut price_points: Vec<PricePoint> = Vec::with_capacity(count + 1);
        let mut idx: usize = 0;
        while idx < count
            invariant
                count == max_price - min_price + 1,
                0 <= idx <= count,
                price_points@.len() == idx,
                forall|j: int|
                    0 <= j < idx ==> (#[trigger] price_points@[j]).bids@ == Map::<u32, u64>::empty()
                        && price_points@[j].asks@ == Map::<u32, u64>::empty(),
            decreases count - idx,
        {
            price_points.push(PricePoint::default());
            idx += 1;
        }
        let mut last_update_ids: Vec<u64> = Vec::new();
        let mut k: u32 = 0;
        while k < EXCHANGE_COUNT
            invariant
                0 <= k <= EXCHANGE_COUNT,
                last_update_ids@ =~= Seq::new(k as nat, |i: int| 0u64),
            decreases EXCHANGE_COUNT - k,
        {
            last_update_ids.push(0);
            k += 1;
        }
        let r = Orderbook {
            symbol: symbol.clone(),
            ask_min: u32::MAX,
            bid_max: 0,
            price_points,
            min_price,
            max_price,
            levels,
            decimals,
            power_quantity: POWER_QUANTITY,
            last_update_ids,
        };
        let ghost m = empty_book(r.symbol@, levels, min_price, max_price, decimals);
        proof {
            assert(r@.bids =~= m.bids);
            assert(r@.asks =~= m.asks);
            assert(r@ == m);
            assert forall|p: int| !#[trigger] m.has_bid(p) by {
                if m.in_range(p) {
                    assert(m.bids_at(p) == Map::<u32, u64>::empty());
                }
            }
            assert forall|p: int| !#[trigger] m.has_ask(p) by {
                if m.in_range(p) {
                    assert(m.asks_at(p) == Map::<u32, u64>::empty());
                }
            }
        }
        r
    }

    /// Builds the book and applies the snapshots in order; returns `None`
    /// exactly where some level step is not defined.
    fn try_new(
        symbol: &String,
        levels: u32,
        min_price: Price,
        max_price: Price,
        decimals: u32,
        snapshots: &Vec<Update>,
    ) -> (r: Option<Result<Orderbook, OrderbookError>>)
        requires
            min_price <= max_price,
            max_price - min_price + 2 <= usize::MAX,
        ensures
            ({
                let m0 = empty_book(symbol@, levels, min_price, max_price, decimals);
                &&& r is Some <==> m0.updates_ok(snapshots@)
                &&& r matches Some(res) ==> match m0.updates_result(snapshots@) {
                    Ok(m) => res matches Ok(ob) && ob.wf() && ob@ == m,
                    Err(e) => res matches Err(e2) && e2 == e,
                }
            }),
    {
        let ghost m0 = empty_book(symbol@, levels, min_price, max_price, decimals);
        let ghost us = snapshots@;
        let mut ob = Orderbook::empty(symbol, levels, min_price, max_price, decimals);
        let mut k: usize = 0;
        while k < snapshots.len()
            invariant
                0 <= k <= us.len(),
                us == snapshots@,
                m0 == empty_book(symbol@, levels, min_price, max_price, decimals),
                ob.wf(),
                m0.updates_result(us.take(k as int)) == Ok::<BookModel, OrderbookError>(ob@),
                m0.updates_ok(us.take(k as int)),
                m0.updates_ok(us) ==> m0.updates_ok(us.take(k as int)),
            decreases us.len() - k,
        {
            let ghost before = ob@;
            proof {
                assert(us.take(k + 1).drop_last() =~= us.take(k as int));
                assert(us.take(k + 1).last() == us[k as int]);
                if m0.updates_ok(us) {
                    lemma_updates_ok_prefix(m0, us, k + 1);
                }
            }
            match ob.try_update(&snapshots[k]) {
                None => {
                    proof {
                        assert(m0.updates_result(us.take(k + 1).drop_last()) == Ok::<
                            BookModel,
                            OrderbookError,
                        >(before));
                    }
                    return None;
                },
                Some(Err(e)) => {
                    proof {
                        lemma_updates_stop_at_error(m0, us, k + 1);
                    }
                    return Some(Err(e));
                },
                Some(Ok(())) => {},
            }
            k += 1;
        }
        proof {
            assert(us.take(k as int) =~= us);
        }
        Some(Ok(ob))
    }

    /// Creates an order book over the storage prices `min_price ..= max_price`
    /// and applies the snapshots to it in order, stopping at the first error.
    pub fn new(
        symbol: String,
        levels: u32,
        min_price: Price,
        max_price: Price,
        decimals: u32,
        snapshots: Vec<Update>,
    ) -> (r: Result<Self, OrderbookError>)
        requires
            min_price <= max_price,
            max_price - min_price + 2 <= usize::MAX,
            empty_book(symbol@, levels, min_price, max_price, decimals).updates_ok(snapshots@),
        ensures
            match empty_book(symbol@, levels, min_price, max_price, decimals).updates_result(
                snapshots@,
            ) {
                Ok(m) => r matches Ok(ob) && ob.wf() && ob@ == m,
                Err(e) => r matches Err(e2) && e2 == e,
            },
    {
        Orderbook::try_new(&symbol, levels, min_price, max_price, decimals, &snapshots).unwrap()
    }

    /// Whether every level step of the snapshots is defined on the new book,
    /// that is, whether [`Orderbook::new`] may be called with them.
    pub fn can_create(
        symbol: &String,
        levels: u32,
        min_price: Price,
        max_price: Price,
        decimals: u32,
        snapshots: &Vec<Update>,
    ) -> (r: bool)
        requires
            min_price <= max_price,
            max_price - min_price + 2 <= usize::MAX,
        ensures
            r == empty_book(symbol@, levels, min_price, max_price, decimals).updates_ok(snapshots@),
    {
        Orderbook::try_new(symbol, levels, min_price, max_price, decimals, snapshots).is_some()
    }
}

impl Orderbook {
    /// The bid levels at `price`, largest quantity first.
    fn bid_levels(&self, price: Price) -> (v: Vec<Level>)
        requires
            self.wf(),
            self@.in_range(price as int),
        ensures
            v@ == self@.bid_levels_at(price as int),
            v@.len() <= EXCHANGE_COUNT,
    {
        let pp = self.get_price_point(price);
        let ghost side = self@.bids_at(price as int);
        let mut v: Vec<Level> = Vec::new();
        let mut k: u32 = 0;
        while k < EXCHANGE_COUNT
            invariant
                0 <= k <= EXCHANGE_COUNT,
                pp.bids@ == side,
                v@ == sort_by_quantity_desc(side_levels(side, price, k)),
            decreases EXCHANGE_COUNT - k,
        {
            let ghost before = side_levels(side, price, k);
            match pp.bids.get(&k) {
                Some(q) => {
                    let x = Level { price, quantity: *q, exchange: ExchangeType::from_index(k) };
                    proof {
                        assert(side_levels(side, price, (k + 1) as u32) == before.push(x));
                        assert(before.push(x).drop_last() =~= before);
                    }
                    insert_desc(&mut v, x);
                },
                None => {},
            }
            k += 1;
        }
        proof {
            lemma_side_levels_len(side, price, EXCHANGE_COUNT);
            lemma_sort_desc_len(side_levels(side, price, EXCHANGE_COUNT));
        }
        v
    }

    /// The ask levels at `price`, smallest quantity first.
    fn ask_levels(&self, price: Price) -> (v: Vec<Level>)
        requires
            self.wf(),
            self@.in_range(price as int),
        ensures
            v@ == self@.ask_levels_at(price as int),
            v@.len() <= EXCHANGE_COUNT,
    {
        let pp = self.get_price_point(price);
        let ghost side = self@.asks_at(price as int);
        let mut v: Vec<Level> = Vec::new();
        let mut k: u32 = 0;
        while k < EXCHANGE_COUNT
            invariant
                0 <= k <= EXCHANGE_COUNT,
                pp.asks@ == side,
                v@ == sort_by_quantity_asc(side_levels(side, price, k)),
            decreases EXCHANGE_COUNT - k,
        {
            let ghost before = side_levels(side, price, k);
            match pp.asks.get(&k) {
                Some(q) => {
                    let x = Level { price, quantity: *q, exchange: ExchangeType::from_index(k) };
                    proof {
                        assert(side_levels(side, price, (k + 1) as u32) == before.push(x));
                        assert(before.push(x).drop_last() =~= before);
                    }
                    insert_asc(&mut v, x);
                },
                None => {},
            }
            k += 1;
        }
        proof {
            lemma_side_levels_len(side, price, EXCHANGE_COUNT);
            lemma_sort_asc_len(side_levels(side, price, EXCHANGE_COUNT));
        }
        v
    }

    /// Collects the bids for the summary: the best `levels` bid levels, by
    /// price from the best bid down, then by decreasing quantity.
    pub fn get_summary_bids(&self) -> (v: Vec<Level>)
        requires
            self.wf(),
            self@.min_price <= self@.bid_max,
        ensures
            v@ == self@.summary_bids(),
    {
        let ghost m = self@;
        let mut summary_bids: Vec<Level> = Vec::with_capacity(self.levels as usize);
        let mut counter: u64 = 0;
        let mut bid_max = self.bid_max;
        loop
            invariant_except_break
                m == self@,
                self.wf(),
                m.min_price <= bid_max <= m.bid_max,
                counter == summary_bids@.len(),
                counter <= m.levels,
                summary_bids@ + m.bid_ladder(bid_max as int) == m.bid_ladder(m.bid_max as int),
            ensures
                m == self@,
                summary_bids@.len() >= m.levels || bid_max == m.min_price,
                summary_bids@ + m.bid_ladder(bid_max - 1) == m.bid_ladder(m.bid_max as int),
            decreases bid_max,
        {
            let mut ob_bids = self.bid_levels(bid_max);
            let ghost here = ob_bids@;
            proof {
                assert(m.bid_ladder(bid_max as int) == here + m.bid_ladder(bid_max - 1));
                assert((summary_bids@ + here) + m.bid_ladder(bid_max - 1) =~= summary_bids@ + (here
                    + m.bid_ladder(bid_max - 1)));
            }
            counter += ob_bids.len() as u64;
            summary_bids.append(&mut ob_bids);
            if counter >= self.levels as u64 || bid_max == self.min_price {
                break;
            }
            bid_max -= 1;
        }
        let ghost collected = summary_bids@;
        let ghost ladder = m.bid_ladder(m.bid_max as int);
        if summary_bids.len() > self.levels as usize {
            summary_bids.truncate(self.levels as usize);
        }
        proof {
            if bid_max == m.min_price {
                assert(m.bid_ladder(bid_max - 1) == Seq::<Level>::empty());
                assert(collected =~= ladder);
            }
            if collected.len() > m.levels {
                assert(ladder.take(m.levels as int) =~= collected.take(m.levels as int));
            } else if collected.len() == m.levels {
                assert(ladder.take(m.levels as int) =~= collected);
            }
        }
        summary_bids
    }

    /// Collects the asks for the summary: the best `levels` ask levels, by
    /// price from the best ask up, then by increasing quantity.
    pub fn get_summary_asks(&self) -> (v: Vec<Level>)
        requires
            self.wf(),
            self@.ask_min <= self@.max_price,
        ensures
            v@ == self@.summary_asks(),
    {
        let ghost m = self@;
        let mut summary_asks: Vec<Level> = Vec::with_capacity(self.levels as usize);
        let mut counter: u64 = 0;
        let mut ask_min = self.ask_min;
        proof {
            if !m.has_asks() {
                assert(m.ask_min == u32::MAX);
            }
        }
        loop
            invariant_except_break
                m == self@,
                self.wf(),
                m.ask_min <= ask_min <= m.max_price,
                m.min_price <= m.ask_min,
                counter == summary_asks@.len(),
                counter <= m.levels,
                summary_asks@ + m.ask_ladder(ask_min as int) == m.ask_ladder(m.ask_min as int),
            ensures
                m == self@,
                summary_asks@.len() >= m.levels || ask_min == m.max_price,
                summary_asks@ + m.ask_ladder(ask_min + 1) == m.ask_ladder(m.ask_min as int),
            decreases m.max_price - ask_min,
        {
            let mut ob_asks = self.ask_levels(ask_min);
            let ghost here = ob_asks@;
            proof {
                assert(m.ask_ladder(ask_min as int) == here + m.ask_ladder(ask_min + 1));
                assert((summary_asks@ + here) + m.ask_ladder(ask_min + 1) =~= summary_asks@ + (here
                    + m.ask_ladder(ask_min + 1)));
            }
            counter += ob_asks.len() as u64;
            summary_asks.append(&mut ob_asks);
            if counter >= self.levels as u64 || ask_min == self.max_price {
                break;
            }
            ask_min += 1;
        }
        let ghost collected = summary_asks@;
        let ghost ladder = m.ask_ladder(m.ask_min as int);
        if summary_asks.len() > self.levels as usize {
            summary_asks.truncate(self.levels as usize);
        }
        proof {
            if ask_min == m.max_price {
                assert(m.ask_ladder(ask_min + 1) == Seq::<Level>::empty());
                assert(collected =~= ladder);
            }
            if collected.len() > m.levels {
                assert(ladder.take(m.levels as int) =~= collected.take(m.levels as int));
            } else if collected.len() == m.levels {
                assert(ladder.take(m.levels as int) =~= collected);
            }
        }
        summary_asks
    }
}

impl Orderbook {
    /// Creates the summary: the best `levels` bids and asks, and the spread
    /// between the best ask and the best bid.
    pub fn get_summary(&self) -> (s: Summary)
        requires
            self.wf(),
            self@.has_bids(),
            self@.has_asks(),
            self@.levels > 0,
        ensures
            s.symbol@ == self@.symbol,
            s.bids@ == self@.summary_bids(),
            s.asks@ == self@.summary_asks(),
            s.bids@.len() > 0,
            s.asks@.len() > 0,
            s.spread == s.asks@[0].price - s.bids@[0].price,
            s.spread == self@.ask_min - self@.bid_max,
            s.timestamp == 0,
    {
        let ghost m = self@;
        proof {
            law_summary_starts_at_best_prices(m);
        }
        let summary_asks = self.get_summary_asks();
        let summary_bids = self.get_summary_bids();
        let spread = summary_asks[0].price as i64 - summary_bids[0].price as i64;
        Summary {
            symbol: self.symbol.clone(),
            spread,
            timestamp: 0,
            bids: summary_bids,
            asks: summary_asks,
        }
    }
}

impl Orderbook {
    /// Whether only exchange `e` can rest on this side.
    fn only_exchange(side: &HashMap<u32, Quantity>, e: u32) -> (r: bool)
        requires
            side_wf(side@),
        ensures
            r == side@.remove(e).is_empty(),
    {
        let mut k: u32 = 0;
        while k < EXCHANGE_COUNT
            invariant
                0 <= k <= EXCHANGE_COUNT,
                side_wf(side@),
                forall|j: u32| j < k && j != e ==> !#[trigger] side@.contains_key(j),
            decreases EXCHANGE_COUNT - k,
        {
            if k != e && side.contains_key(&k) {
                proof {
                    assert(side@.remove(e).contains_key(k));
                }
                return false;
            }
            k += 1;
        }
        proof {
            assert(side@.remove(e).dom() =~= Set::<u32>::empty());
        }
        true
    }

    /// Whether the bid step is defined, that is, whether
    /// [`Orderbook::add_bid`] may be called with these arguments.
    pub fn can_add_bid(&self, exchange: ExchangeType, price: Price, quantity: Quantity) -> (r: bool)
        requires
            self.wf(),
        ensures
            r == self@.bid_step_ok(exchange.spec_index(), price, quantity),
    {
        if price > self.max_price || price < self.min_price || quantity > 0 || price
            != self.bid_max {
            return true;
        }
        let e = exchange.index();
        let pp = self.get_price_point(price);
        proof {
            assert(side_wf(self@.bids[price - self@.min_price]));
        }
        if !Orderbook::only_exchange(&pp.bids, e) {
            return true;
        }
        let ghost removed = self@.bid_removed(e, price as int);
        proof {
            assert forall|r: int| r <= price - 1 implies #[trigger] removed.has_bid(r)
                == self@.has_bid(r) by {
                if removed.in_range(r) {
                    assert(removed.bids_at(r) == self@.bids_at(r));
                }
            }
            lemma_highest_bid_from_below(removed, self@, price - 1);
        }
        self.find_bid_below(price).is_some()
    }

    /// Whether the ask step is defined, that is, whether
    /// [`Orderbook::add_ask`] may be called with these arguments.
    pub fn can_add_ask(&self, exchange: ExchangeType, price: Price, quantity: Quantity) -> (r: bool)
        requires
            self.wf(),
        ensures
            r == self@.ask_step_ok(exchange.spec_index(), price, quantity),
    {
        if price > self.max_price || price < self.min_price || quantity > 0 || price
            != self.ask_min {
            return true;
        }
        let e = exchange.index();
        let pp = self.get_price_point(price);
        proof {
            assert(side_wf(self@.asks[price - self@.min_price]));
        }
        if !Orderbook::only_exchange(&pp.asks, e) {
            return true;
        }
        let ghost removed = self@.ask_removed(e, price as int);
        proof {
            assert forall|r: int| r >= price + 1 implies #[trigger] removed.has_ask(r)
                == self@.has_ask(r) by {
                if removed.in_range(r) {
                    assert(removed.asks_at(r) == self@.asks_at(r));
                }
            }
            lemma_lowest_ask_from_above(removed, self@, price + 1);
        }
        self.find_ask_above(price).is_some()
    }

    /// Number of levels per side that a summary shows.
    pub fn levels(&self) -> (r: u32)
        ensures
            r == self@.levels,
    {
        self.levels
    }

    /// Number of decimals of a storage price.
    pub fn decimals(&self) -> (r: u32)
        ensures
            r == self@.decimals,
    {
        self.decimals
    }

    /// Number of decimals of a storage quantity.
    pub fn power_quantity(&self) -> (r: u32)
        ensures
            r == self@.power_quantity,
    {
        self.power_quantity
    }
}

} // verus!
