use vstd::prelude::*;

use crate::exchange::{ExchangeType, EXCHANGE_COUNT};
use crate::model::{side_wf, BookModel};
use crate::orderbook::{Price, Quantity};

verus! {

/// One level of a summary, in storage units.
#[derive(Clone, Copy, Debug, PartialEq, Eq, Structural)]
pub struct Level {
    pub price: Price,
    pub quantity: Quantity,
    pub exchange: ExchangeType,
}

/// The best levels of the book on each side, in storage units.
#[derive(Debug)]
pub struct Summary {
    pub symbol: String,
    pub spread: i64,
    pub timestamp: i64,
    pub bids: Vec<Level>,
    pub asks: Vec<Level>,
}

/// The levels of one price-point side, in exchange index order, for the
/// exchanges with index below `k`.
pub open spec fn side_levels(side: Map<u32, u64>, price: u32, k: u32) -> Seq<Level>
    decreases k,
{
    if k == 0 {
        Seq::empty()
    } else {
        let i = (k - 1) as u32;
        let rest = side_levels(side, price, i);
        if side.contains_key(i) {
            rest.push(Level { price, quantity: side[i], exchange: ExchangeType::spec_from_index(i) })
        } else {
            rest
        }
    }
}

/// Stable insertion of `x` into `s`, which is sorted by decreasing quantity:
/// `x` goes after every level with at least its quantity.
pub open spec fn insert_by_quantity_desc(s: Seq<Level>, x: Level) -> Seq<Level>
    decreases s.len(),
{
    if s.len() == 0 {
        seq![x]
    } else if s.last().quantity >= x.quantity {
        s.push(x)
    } else {
        insert_by_quantity_desc(s.drop_last(), x).push(s.last())
    }
}

/// Stable insertion of `x` into `s`, which is sorted by increasing quantity:
/// `x` goes after every level with at most its quantity.
pub open spec fn insert_by_quantity_asc(s: Seq<Level>, x: Level) -> Seq<Level>
    decreases s.len(),
{
    if s.len() == 0 {
        seq![x]
    } else if s.last().quantity <= x.quantity {
        s.push(x)
    } else {
        insert_by_quantity_asc(s.drop_last(), x).push(s.last())
    }
}

/// Stable sort by decreasing quantity.
pub open spec fn sort_by_quantity_desc(s: Seq<Level>) -> Seq<Level>
    decreases s.len(),
{
    if s.len() == 0 {
        s
    } else {
        insert_by_quantity_desc(sort_by_quantity_desc(s.drop_last()), s.last())
    }
}

/// Stable sort by increasing quantity.
pub open spec fn sort_by_quantity_asc(s: Seq<Level>) -> Seq<Level>
    decreases s.len(),
{
    if s.len() == 0 {
        s
    } else {
        insert_by_quantity_asc(sort_by_quantity_asc(s.drop_last()), s.last())
    }
}

/// The first `n` elements of `s`, or all of them if there are fewer.
pub open spec fn first_levels(s: Seq<Level>, n: int) -> Seq<Level> {
    if s.len() <= n {
        s
    } else {
        s.take(n)
    }
}

impl BookModel {
    /// The bid levels at price `p`, largest quantity first.
    pub open spec fn bid_levels_at(self, p: int) -> Seq<Level> {
        sort_by_quantity_desc(side_levels(self.bids_at(p), p as u32, EXCHANGE_COUNT))
    }

    /// The ask levels at price `p`, smallest quantity first.
    pub open spec fn ask_levels_at(self, p: int) -> Seq<Level> {
        sort_by_quantity_asc(side_levels(self.asks_at(p), p as u32, EXCHANGE_COUNT))
    }

    /// All bid levels at prices `p` and below, highest price first.
    pub open spec fn bid_ladder(self, p: int) -> Seq<Level>
        decreases p - self.min_price + 1,
    {
        if p < self.min_price {
            Seq::empty()
        } else {
            self.bid_levels_at(p) + self.bid_ladder(p - 1)
        }
    }

    /// All ask levels at prices `p` and above, lowest price first.
    pub open spec fn ask_ladder(self, p: int) -> Seq<Level>
        decreases self.max_price - p + 1,
    {
        if p > self.max_price {
            Seq::empty()
        } else {
            self.ask_levels_at(p) + self.ask_ladder(p + 1)
        }
    }

    /// The best `levels` bids: by price from the best bid down, then by
    /// decreasing quantity, then by exchange index.
    pub open spec fn summary_bids(self) -> Seq<Level> {
        first_levels(self.bid_ladder(self.bid_max as int), self.levels as int)
    }

    /// The best `levels` asks: by price from the best ask up, then by
    /// increasing quantity, then by exchange index.
    pub open spec fn summary_asks(self) -> Seq<Level> {
        first_levels(self.ask_ladder(self.ask_min as int), self.levels as int)
    }
}

pub proof fn lemma_side_levels_len(side: Map<u32, u64>, price: u32, k: u32)
    ensures
        side_levels(side, price, k).len() <= k,
    decreases k,
{
    if k > 0 {
        lemma_side_levels_len(side, price, (k - 1) as u32);
    }
}

/// A side holding a level of exchange `j < k` lists at least one level.
pub proof fn lemma_side_levels_nonempty(side: Map<u32, u64>, price: u32, k: u32, j: u32)
    requires
        j < k,
        side.contains_key(j),
    ensures
        side_levels(side, price, k).len() > 0,
    decreases k,
{
    if j < k - 1 {
        lemma_side_levels_nonempty(side, price, (k - 1) as u32, j);
    }
}

pub proof fn lemma_sort_desc_len(s: Seq<Level>)
    ensures
        sort_by_quantity_desc(s).len() == s.len(),
    decreases s.len(),
{
    if s.len() > 0 {
        lemma_sort_desc_len(s.drop_last());
        lemma_insert_desc_len(sort_by_quantity_desc(s.drop_last()), s.last());
    }
}

pub proof fn lemma_insert_desc_len(s: Seq<Level>, x: Level)
    ensures
        insert_by_quantity_desc(s, x).len() == s.len() + 1,
    decreases s.len(),
{
    if s.len() > 0 {
        lemma_insert_desc_len(s.drop_last(), x);
    }
}

pub proof fn lemma_sort_asc_len(s: Seq<Level>)
    ensures
        sort_by_quantity_asc(s).len() == s.len(),
    decreases s.len(),
{
    if s.len() > 0 {
        lemma_sort_asc_len(s.drop_last());
        lemma_insert_asc_len(sort_by_quantity_asc(s.drop_last()), s.last());
    }
}

pub proof fn lemma_insert_asc_len(s: Seq<Level>, x: Level)
    ensures
        insert_by_quantity_asc(s, x).len() == s.len() + 1,
    decreases s.len(),
{
    if s.len() > 0 {
        lemma_insert_asc_len(s.drop_last(), x);
    }
}

/// Inserts `x` into `v`, sorted by decreasing quantity, after every level
/// with at least its quantity.
pub(crate) fn insert_desc(v: &mut Vec<Level>, x: Level)
    ensures
        final(v)@ == insert_by_quantity_desc(old(v)@, x),
{
    let ghost s = v@;
    let mut pos = v.len();
    proof {
        assert(s.take(s.len() as int) =~= s);
        assert(insert_by_quantity_desc(s, x) + s.skip(s.len() as int) =~= insert_by_quantity_desc(s, x));
    }
    while pos > 0 && v[pos - 1].quantity < x.quantity
        invariant
            v@ == s,
            0 <= pos <= s.len(),
            insert_by_quantity_desc(s, x) == insert_by_quantity_desc(s.take(pos as int), x) + s.skip(
                pos as int,
            ),
        decreases pos,
    {
        proof {
            let t = s.take(pos as int);
            assert(t.drop_last() =~= s.take(pos - 1));
            assert(t.last() == s[pos - 1]);
            assert(insert_by_quantity_desc(t, x) == insert_by_quantity_desc(s.take(pos - 1), x).push(
                s[pos - 1],
            ));
            assert(insert_by_quantity_desc(s.take(pos - 1), x).push(s[pos - 1]) + s.skip(pos as int)
                =~= insert_by_quantity_desc(s.take(pos - 1), x) + s.skip(pos - 1));
        }
        pos -= 1;
    }
    proof {
        if pos == 0 {
            assert(s.take(0) =~= Seq::<Level>::empty());
        } else {
            assert(s.take(pos as int).last() == s[pos - 1]);
        }
        assert(insert_by_quantity_desc(s, x) =~= s.insert(pos as int, x));
    }
    v.insert(pos, x);
}

/// Inserts `x` into `v`, sorted by increasing quantity, after every level
/// with at most its quantity.
pub(crate) fn insert_asc(v: &mut Vec<Level>, x: Level)
    ensures
        final(v)@ == insert_by_quantity_asc(old(v)@, x),
{
    let ghost s = v@;
    let mut pos = v.len();
    proof {
        assert(s.take(s.len() as int) =~= s);
        assert(insert_by_quantity_asc(s, x) + s.skip(s.len() as int) =~= insert_by_quantity_asc(s, x));
    }
    while pos > 0 && v[pos - 1].quantity > x.quantity
        invariant
            v@ == s,
            0 <= pos <= s.len(),
            insert_by_quantity_asc(s, x) == insert_by_quantity_asc(s.take(pos as int), x) + s.skip(
                pos as int,
            ),
        decreases pos,
    {
        proof {
            let t = s.take(pos as int);
            assert(t.drop_last() =~= s.take(pos - 1));
            assert(t.last() == s[pos - 1]);
            assert(insert_by_quantity_asc(t, x) == insert_by_quantity_asc(s.take(pos - 1), x).push(
                s[pos - 1],
            ));
            assert(insert_by_quantity_asc(s.take(pos - 1), x).push(s[pos - 1]) + s.skip(pos as int)
                =~= insert_by_quantity_asc(s.take(pos - 1), x) + s.skip(pos - 1));
        }
        pos -= 1;
    }
    proof {
        if pos == 0 {
            assert(s.take(0) =~= Seq::<Level>::empty());
        } else {
            assert(s.take(pos as int).last() == s[pos - 1]);
        }
        assert(insert_by_quantity_asc(s, x) =~= s.insert(pos as int, x));
    }
    v.insert(pos, x);
}

/// With a bid, an ask and room for one level, both sides of the summary are
/// non-empty.
pub proof fn lemma_summary_nonempty(m: BookModel)
    requires
        m.inv(),
        m.has_bids(),
        m.has_asks(),
        m.levels > 0,
    ensures
        m.summary_bids().len() > 0,
        m.summary_asks().len() > 0,
        m.min_price <= m.bid_max <= m.max_price,
        m.min_price <= m.ask_min <= m.max_price,
{
    let pb = m.bid_max as int;
    let side = m.bids_at(pb);
    assert(side_wf(m.bids[pb - m.min_price]));
    let j = side.dom().choose();
    assert(side.contains_key(j));
    lemma_side_levels_nonempty(side, pb as u32, EXCHANGE_COUNT, j);
    lemma_sort_desc_len(side_levels(side, pb as u32, EXCHANGE_COUNT));
    assert(m.bid_ladder(pb) == m.bid_levels_at(pb) + m.bid_ladder(pb - 1));
    let pa = m.ask_min as int;
    let aside = m.asks_at(pa);
    assert(side_wf(m.asks[pa - m.min_price]));
    let ja = aside.dom().choose();
    assert(aside.contains_key(ja));
    lemma_side_levels_nonempty(aside, pa as u32, EXCHANGE_COUNT, ja);
    lemma_sort_asc_len(side_levels(aside, pa as u32, EXCHANGE_COUNT));
    assert(m.ask_ladder(pa) == m.ask_levels_at(pa) + m.ask_ladder(pa + 1));
}

/// Every level of `s` satisfies `pred`.
pub open spec fn all_levels(s: Seq<Level>, pred: spec_fn(Level) -> bool) -> bool {
    forall|k: int| 0 <= k < s.len() ==> #[trigger] pred(s[k])
}

/// Quantities never increase along `s`.
pub open spec fn quantities_desc(s: Seq<Level>) -> bool {
    forall|i: int, j: int| 0 <= i < j < s.len() ==> s[i].quantity >= s[j].quantity
}

/// Quantities never decrease along `s`.
pub open spec fn quantities_asc(s: Seq<Level>) -> bool {
    forall|i: int, j: int| 0 <= i < j < s.len() ==> s[i].quantity <= s[j].quantity
}

proof fn lemma_insert_desc_all(s: Seq<Level>, x: Level, pred: spec_fn(Level) -> bool)
    requires
        all_levels(s, pred),
        pred(x),
    ensures
        all_levels(insert_by_quantity_desc(s, x), pred),
    decreases s.len(),
{
    if s.len() > 0 && s.last().quantity < x.quantity {
        lemma_insert_desc_all(s.drop_last(), x, pred);
        assert(pred(s.last()));
    }
}

proof fn lemma_insert_asc_all(s: Seq<Level>, x: Level, pred: spec_fn(Level) -> bool)
    requires
        all_levels(s, pred),
        pred(x),
    ensures
        all_levels(insert_by_quantity_asc(s, x), pred),
    decreases s.len(),
{
    if s.len() > 0 && s.last().quantity > x.quantity {
        lemma_insert_asc_all(s.drop_last(), x, pred);
        assert(pred(s.last()));
    }
}

proof fn lemma_sort_desc_all(s: Seq<Level>, pred: spec_fn(Level) -> bool)
    requires
        all_levels(s, pred),
    ensures
        all_levels(sort_by_quantity_desc(s), pred),
    decreases s.len(),
{
    if s.len() > 0 {
        lemma_sort_desc_all(s.drop_last(), pred);
        assert(pred(s.last()));
        lemma_insert_desc_all(sort_by_quantity_desc(s.drop_last()), s.last(), pred);
    }
}

proof fn lemma_sort_asc_all(s: Seq<Level>, pred: spec_fn(Level) -> bool)
    requires
        all_levels(s, pred),
    ensures
        all_levels(sort_by_quantity_asc(s), pred),
    decreases s.len(),
{
    if s.len() > 0 {
        lemma_sort_asc_all(s.drop_last(), pred);
        assert(pred(s.last()));
        lemma_insert_asc_all(sort_by_quantity_asc(s.drop_last()), s.last(), pred);
    }
}

proof fn lemma_insert_desc_sorted(s: Seq<Level>, x: Level)
    requires
        quantities_desc(s),
    ensures
        quantities_desc(insert_by_quantity_desc(s, x)),
    decreases s.len(),
{
    if s.len() > 0 {
        let last = s.last();
        if last.quantity >= x.quantity {
            assert(forall|i: int| 0 <= i < s.len() ==> s[i].quantity >= #[trigger] last.quantity);
        } else {
            let pred = |y: Level| y.quantity >= last.quantity;
            assert(quantities_desc(s.drop_last()));
            assert forall|k: int| 0 <= k < s.drop_last().len() implies #[trigger] pred(
                s.drop_last()[k],
            ) by {
                assert(s[k].quantity >= s[s.len() - 1].quantity);
            }
            lemma_insert_desc_all(s.drop_last(), x, pred);
            lemma_insert_desc_sorted(s.drop_last(), x);
            let r = insert_by_quantity_desc(s.drop_last(), x);
            assert forall|i: int, j: int| 0 <= i < j < r.len() + 1 implies r.push(last)[i].quantity
                >= r.push(last)[j].quantity by {
                if j == r.len() {
                    assert(pred(r[i]));
                }
            }
        }
    }
}

proof fn lemma_insert_asc_sorted(s: Seq<Level>, x: Level)
    requires
        quantities_asc(s),
    ensures
        quantities_asc(insert_by_quantity_asc(s, x)),
    decreases s.len(),
{
    if s.len() > 0 {
        let last = s.last();
        if last.quantity <= x.quantity {
            assert(forall|i: int| 0 <= i < s.len() ==> s[i].quantity <= #[trigger] last.quantity);
        } else {
            let pred = |y: Level| y.quantity <= last.quantity;
            assert(quantities_asc(s.drop_last()));
            assert forall|k: int| 0 <= k < s.drop_last().len() implies #[trigger] pred(
                s.drop_last()[k],
            ) by {
                assert(s[k].quantity <= s[s.len() - 1].quantity);
            }
            lemma_insert_asc_all(s.drop_last(), x, pred);
            lemma_insert_asc_sorted(s.drop_last(), x);
            let r = insert_by_quantity_asc(s.drop_last(), x);
            assert forall|i: int, j: int| 0 <= i < j < r.len() + 1 implies r.push(last)[i].quantity
                <= r.push(last)[j].quantity by {
                if j == r.len() {
                    assert(pred(r[i]));
                }
            }
        }
    }
}

proof fn lemma_sort_desc_sorted(s: Seq<Level>)
    ensures
        quantities_desc(sort_by_quantity_desc(s)),
    decreases s.len(),
{
    if s.len() > 0 {
        lemma_sort_desc_sorted(s.drop_last());
        lemma_insert_desc_sorted(sort_by_quantity_desc(s.drop_last()), s.last());
    }
}

proof fn lemma_sort_asc_sorted(s: Seq<Level>)
    ensures
        quantities_asc(sort_by_quantity_asc(s)),
    decreases s.len(),
{
    if s.len() > 0 {
        lemma_sort_asc_sorted(s.drop_last());
        lemma_insert_asc_sorted(sort_by_quantity_asc(s.drop_last()), s.last());
    }
}

/// A level listed for a side at `price` rests on that side at that price.
pub open spec fn rests_in(side: Map<u32, u64>, price: u32, l: Level) -> bool {
    &&& l.price == price
    &&& side.contains_key(l.exchange.spec_index())
    &&& side[l.exchange.spec_index()] == l.quantity
}

proof fn lemma_side_levels_rest(side: Map<u32, u64>, price: u32, k: u32)
    requires
        k <= EXCHANGE_COUNT,
    ensures
        all_levels(side_levels(side, price, k), |l: Level| rests_in(side, price, l)),
    decreases k,
{
    if k > 0 {
        lemma_side_levels_rest(side, price, (k - 1) as u32);
    }
}

/// A bid level listed in the summary rests in the book at its price.
pub open spec fn bid_rests(m: BookModel, l: Level) -> bool {
    m.in_range(l.price as int) && rests_in(m.bids_at(l.price as int), l.price, l)
}

/// An ask level listed in the summary rests in the book at its price.
pub open spec fn ask_rests(m: BookModel, l: Level) -> bool {
    m.in_range(l.price as int) && rests_in(m.asks_at(l.price as int), l.price, l)
}

proof fn lemma_bid_ladder(m: BookModel, p: int)
    requires
        p <= m.max_price,
    ensures
        ({
            let s = m.bid_ladder(p);
            &&& forall|k: int| #![trigger s[k]] 0 <= k < s.len() ==> s[k].price <= p && bid_rests(m, s[k])
            &&& forall|i: int, j: int|
                0 <= i < j < s.len() ==> s[i].price >= s[j].price && (s[i].price == s[j].price
                    ==> s[i].quantity >= s[j].quantity)
        }),
    decreases p - m.min_price + 1,
{
    if p >= m.min_price {
        lemma_bid_ladder(m, p - 1);
        let side = m.bids_at(p);
        let raw = side_levels(side, p as u32, EXCHANGE_COUNT);
        let here = m.bid_levels_at(p);
        let rest = m.bid_ladder(p - 1);
        lemma_side_levels_rest(side, p as u32, EXCHANGE_COUNT);
        let pred = |l: Level| rests_in(side, p as u32, l);
        lemma_sort_desc_all(raw, pred);
        lemma_sort_desc_sorted(raw);
        let s = here + rest;
        assert(m.bid_ladder(p) == s);
        assert((p as u32) as int == p);
        assert forall|k: int| 0 <= k < here.len() implies rests_in(side, p as u32, #[trigger] here[k]) by {
            assert(pred(here[k]));
        }
        assert forall|k: int| #![trigger s[k]] 0 <= k < s.len() implies s[k].price <= p && bid_rests(m, s[k]) by {
            if k < here.len() {
                assert(rests_in(side, p as u32, here[k]));
                assert(s[k] == here[k]);
            } else {
                assert(s[k] == rest[k - here.len()]);
                assert(bid_rests(m, rest[k - here.len()]));
            }
        }
        assert forall|i: int, j: int| 0 <= i < j < s.len() implies s[i].price >= s[j].price && (
        s[i].price == s[j].price ==> s[i].quantity >= s[j].quantity) by {
            if j < here.len() {
                assert(rests_in(side, p as u32, here[i]));
                assert(rests_in(side, p as u32, here[j]));
                assert(here[i].quantity >= here[j].quantity);
                assert(s[i] == here[i] && s[j] == here[j]);
            } else if i < here.len() {
                assert(rests_in(side, p as u32, here[i]));
                assert(s[i] == here[i]);
                assert(s[j] == rest[j - here.len()]);
                assert(bid_rests(m, rest[j - here.len()]));
            } else {
                assert(s[i] == rest[i - here.len()]);
                assert(s[j] == rest[j - here.len()]);
            }
        }
    }
}

proof fn lemma_ask_ladder(m: BookModel, p: int)
    requires
        p >= m.min_price,
    ensures
        ({
            let s = m.ask_ladder(p);
            &&& forall|k: int| #![trigger s[k]] 0 <= k < s.len() ==> s[k].price >= p && ask_rests(m, s[k])
            &&& forall|i: int, j: int|
                0 <= i < j < s.len() ==> s[i].price <= s[j].price && (s[i].price == s[j].price
                    ==> s[i].quantity <= s[j].quantity)
        }),
    decreases m.max_price - p + 1,
{
    if p <= m.max_price {
        lemma_ask_ladder(m, p + 1);
        let side = m.asks_at(p);
        let raw = side_levels(side, p as u32, EXCHANGE_COUNT);
        let here = m.ask_levels_at(p);
        let rest = m.ask_ladder(p + 1);
        lemma_side_levels_rest(side, p as u32, EXCHANGE_COUNT);
        let pred = |l: Level| rests_in(side, p as u32, l);
        lemma_sort_asc_all(raw, pred);
        lemma_sort_asc_sorted(raw);
        let s = here + rest;
        assert(m.ask_ladder(p) == s);
        assert((p as u32) as int == p);
        assert forall|k: int| 0 <= k < here.len() implies rests_in(side, p as u32, #[trigger] here[k]) by {
            assert(pred(here[k]));
        }
        assert forall|k: int| #![trigger s[k]] 0 <= k < s.len() implies s[k].price >= p && ask_rests(m, s[k]) by {
            if k < here.len() {
                assert(rests_in(side, p as u32, here[k]));
                assert(s[k] == here[k]);
            } else {
                assert(s[k] == rest[k - here.len()]);
                assert(ask_rests(m, rest[k - here.len()]));
            }
        }
        assert forall|i: int, j: int| 0 <= i < j < s.len() implies s[i].price <= s[j].price && (
        s[i].price == s[j].price ==> s[i].quantity <= s[j].quantity) by {
            if j < here.len() {
                assert(rests_in(side, p as u32, here[i]));
                assert(rests_in(side, p as u32, here[j]));
                assert(here[i].quantity <= here[j].quantity);
                assert(s[i] == here[i] && s[j] == here[j]);
            } else if i < here.len() {
                assert(rests_in(side, p as u32, here[i]));
                assert(s[i] == here[i]);
                assert(s[j] == rest[j - here.len()]);
                assert(ask_rests(m, rest[j - here.len()]));
            } else {
                assert(s[i] == rest[i - here.len()]);
                assert(s[j] == rest[j - here.len()]);
            }
        }
    }
}

/// The summary's bids are at most `levels` levels resting in the book, at
/// or below the best bid, best price first and, at one price, largest
/// quantity first.
pub proof fn law_summary_bids_are_ordered(m: BookModel)
    requires
        m.inv(),
    ensures
        ({
            let s = m.summary_bids();
            &&& s.len() <= m.levels
            &&& forall|k: int| #![trigger s[k]] 0 <= k < s.len() ==> s[k].price <= m.bid_max && bid_rests(m, s[k])
            &&& forall|i: int, j: int|
                0 <= i < j < s.len() ==> s[i].price >= s[j].price && (s[i].price == s[j].price
                    ==> s[i].quantity >= s[j].quantity)
        }),
{
    if !m.has_bids() {
        assert(m.bid_max == 0);
    } else {
        assert(m.has_bid(m.bid_max as int));
    }
    lemma_bid_ladder(m, m.bid_max as int);
}

/// The summary's asks are at most `levels` levels resting in the book, at
/// or above the best ask, best price first and, at one price, smallest
/// quantity first.
pub proof fn law_summary_asks_are_ordered(m: BookModel)
    requires
        m.inv(),
    ensures
        ({
            let s = m.summary_asks();
            &&& s.len() <= m.levels
            &&& forall|k: int| #![trigger s[k]] 0 <= k < s.len() ==> s[k].price >= m.ask_min && ask_rests(m, s[k])
            &&& forall|i: int, j: int|
                0 <= i < j < s.len() ==> s[i].price <= s[j].price && (s[i].price == s[j].price
                    ==> s[i].quantity <= s[j].quantity)
        }),
{
    lemma_ask_ladder(m, m.ask_min as int);
}

/// With a bid, an ask and room for one level, the summary starts at the
/// best bid and at the best ask.
pub proof fn law_summary_starts_at_best_prices(m: BookModel)
    requires
        m.inv(),
        m.has_bids(),
        m.has_asks(),
        m.levels > 0,
    ensures
        m.summary_bids().len() > 0,
        m.summary_asks().len() > 0,
        m.summary_bids()[0].price == m.bid_max,
        m.summary_asks()[0].price == m.ask_min,
{
    lemma_summary_nonempty(m);
    law_summary_bids_are_ordered(m);
    law_summary_asks_are_ordered(m);
    let pb = m.bid_max as int;
    let side = m.bids_at(pb);
    let raw = side_levels(side, pb as u32, EXCHANGE_COUNT);
    lemma_side_levels_rest(side, pb as u32, EXCHANGE_COUNT);
    let pred = |l: Level| rests_in(side, pb as u32, l);
    lemma_sort_desc_all(raw, pred);
    assert(m.bid_ladder(pb) == m.bid_levels_at(pb) + m.bid_ladder(pb - 1));
    assert(m.bid_levels_at(pb).len() > 0) by {
        let j = side.dom().choose();
        assert(side_wf(m.bids[pb - m.min_price]));
        lemma_side_levels_nonempty(side, pb as u32, EXCHANGE_COUNT, j);
        lemma_sort_desc_len(raw);
    }
    assert(pred(m.bid_levels_at(pb)[0]));
    let pa = m.ask_min as int;
    let aside = m.asks_at(pa);
    let araw = side_levels(aside, pa as u32, EXCHANGE_COUNT);
    lemma_side_levels_rest(aside, pa as u32, EXCHANGE_COUNT);
    let apred = |l: Level| rests_in(aside, pa as u32, l);
    lemma_sort_asc_all(araw, apred);
    assert(m.ask_ladder(pa) == m.ask_levels_at(pa) + m.ask_ladder(pa + 1));
    assert(m.ask_levels_at(pa).len() > 0) by {
        let j = aside.dom().choose();
        assert(side_wf(m.asks[pa - m.min_price]));
        lemma_side_levels_nonempty(aside, pa as u32, EXCHANGE_COUNT, j);
        lemma_sort_asc_len(araw);
    }
    assert(apred(m.ask_levels_at(pa)[0]));
}

impl BookModel {
    /// Number of ask levels resting at prices from `min_price` up to, but
    /// not including, `p`.
    pub open spec fn asks_below(self, p: int) -> nat
        decreases p - self.min_price,
    {
        if p <= self.min_price {
            0
        } else {
            self.asks_below(p - 1) + self.asks_at(p - 1).len()
        }
    }

    /// Number of bid levels resting at prices above `p`, up to `max_price`.
    pub open spec fn bids_above(self, p: int) -> nat
        decreases self.max_price - p,
    {
        if p >= self.max_price {
            0
        } else {
            self.bids_above(p + 1) + self.bids_at(p + 1).len()
        }
    }
}

/// A side lists exactly one level per exchange resting on it.
proof fn lemma_side_levels_count(side: Map<u32, u64>, price: u32)
    requires
        side_wf(side),
    ensures
        side_levels(side, price, EXCHANGE_COUNT).len() == side.len(),
{
    let s0 = side_levels(side, price, 0);
    let s1 = side_levels(side, price, 1);
    assert(s0.len() == 0);
    if side.contains_key(0) {
        if side.contains_key(1) {
            assert(side.dom() =~= Set::<u32>::empty().insert(0).insert(1));
        } else {
            assert(side.dom() =~= Set::<u32>::empty().insert(0));
        }
    } else {
        if side.contains_key(1) {
            assert(side.dom() =~= Set::<u32>::empty().insert(1));
        } else {
            assert(side.dom() =~= Set::<u32>::empty());
        }
    }
}

/// The level of every exchange `j < k` resting on the side is listed.
proof fn lemma_side_levels_has(side: Map<u32, u64>, price: u32, k: u32, j: u32)
    requires
        j < k,
        side.contains_key(j),
    ensures
        side_levels(side, price, k).contains(
            Level { price, quantity: side[j], exchange: ExchangeType::spec_from_index(j) },
        ),
    decreases k,
{
    let x = Level { price, quantity: side[j], exchange: ExchangeType::spec_from_index(j) };
    let rest = side_levels(side, price, (k - 1) as u32);
    if j < k - 1 {
        lemma_side_levels_has(side, price, (k - 1) as u32, j);
        let i = choose|i: int| 0 <= i < rest.len() && rest[i] == x;
        if side.contains_key((k - 1) as u32) {
            assert(side_levels(side, price, k)[i] == x);
        }
    } else {
        assert(side_levels(side, price, k)[rest.len() as int] == x);
    }
}

proof fn lemma_insert_desc_contains(s: Seq<Level>, x: Level)
    ensures
        insert_by_quantity_desc(s, x).contains(x),
        forall|y: Level| s.contains(y) ==> #[trigger] insert_by_quantity_desc(s, x).contains(y),
    decreases s.len(),
{
    let r = insert_by_quantity_desc(s, x);
    if s.len() == 0 {
        assert(r[0] == x);
    } else if s.last().quantity >= x.quantity {
        assert(r[s.len() as int] == x);
        assert forall|y: Level| s.contains(y) implies #[trigger] r.contains(y) by {
            let i = choose|i: int| 0 <= i < s.len() && s[i] == y;
            assert(r[i] == y);
        }
    } else {
        let t = insert_by_quantity_desc(s.drop_last(), x);
        lemma_insert_desc_contains(s.drop_last(), x);
        let i0 = choose|i: int| 0 <= i < t.len() && t[i] == x;
        assert(r[i0] == x);
        assert forall|y: Level| s.contains(y) implies #[trigger] r.contains(y) by {
            let i = choose|i: int| 0 <= i < s.len() && s[i] == y;
            if i == s.len() - 1 {
                assert(r[t.len() as int] == y);
            } else {
                assert(s.drop_last()[i] == y);
                assert(t.contains(y));
                let i1 = choose|i1: int| 0 <= i1 < t.len() && t[i1] == y;
                assert(r[i1] == y);
            }
        }
    }
}

proof fn lemma_insert_asc_contains(s: Seq<Level>, x: Level)
    ensures
        insert_by_quantity_asc(s, x).contains(x),
        forall|y: Level| s.contains(y) ==> #[trigger] insert_by_quantity_asc(s, x).contains(y),
    decreases s.len(),
{
    let r = insert_by_quantity_asc(s, x);
    if s.len() == 0 {
        assert(r[0] == x);
    } else if s.last().quantity <= x.quantity {
        assert(r[s.len() as int] == x);
        assert forall|y: Level| s.contains(y) implies #[trigger] r.contains(y) by {
            let i = choose|i: int| 0 <= i < s.len() && s[i] == y;
            assert(r[i] == y);
        }
    } else {
        let t = insert_by_quantity_asc(s.drop_last(), x);
        lemma_insert_asc_contains(s.drop_last(), x);
        let i0 = choose|i: int| 0 <= i < t.len() && t[i] == x;
        assert(r[i0] == x);
        assert forall|y: Level| s.contains(y) implies #[trigger] r.contains(y) by {
            let i = choose|i: int| 0 <= i < s.len() && s[i] == y;
            if i == s.len() - 1 {
                assert(r[t.len() as int] == y);
            } else {
                assert(s.drop_last()[i] == y);
                assert(t.contains(y));
                let i1 = choose|i1: int| 0 <= i1 < t.len() && t[i1] == y;
                assert(r[i1] == y);
            }
        }
    }
}

proof fn lemma_sort_desc_contains(s: Seq<Level>)
    ensures
        forall|y: Level| s.contains(y) ==> #[trigger] sort_by_quantity_desc(s).contains(y),
    decreases s.len(),
{
    if s.len() > 0 {
        let s1 = s.drop_last();
        lemma_sort_desc_contains(s1);
        lemma_insert_desc_contains(sort_by_quantity_desc(s1), s.last());
        assert forall|y: Level| s.contains(y) implies #[trigger] sort_by_quantity_desc(s).contains(y) by {
            let i = choose|i: int| 0 <= i < s.len() && s[i] == y;
            if i < s.len() - 1 {
                assert(s1[i] == y);
                assert(s1.contains(y));
                assert(sort_by_quantity_desc(s1).contains(y));
            }
        }
    }
}

proof fn lemma_sort_asc_contains(s: Seq<Level>)
    ensures
        forall|y: Level| s.contains(y) ==> #[trigger] sort_by_quantity_asc(s).contains(y),
    decreases s.len(),
{
    if s.len() > 0 {
        let s1 = s.drop_last();
        lemma_sort_asc_contains(s1);
        lemma_insert_asc_contains(sort_by_quantity_asc(s1), s.last());
        assert forall|y: Level| s.contains(y) implies #[trigger] sort_by_quantity_asc(s).contains(y) by {
            let i = choose|i: int| 0 <= i < s.len() && s[i] == y;
            if i < s.len() - 1 {
                assert(s1[i] == y);
                assert(s1.contains(y));
                assert(sort_by_quantity_asc(s1).contains(y));
            }
        }
    }
}

/// The ask levels at a price are as many as the asks resting there.
proof fn lemma_ask_levels_at_len(m: BookModel, r: int)
    requires
        m.inv(),
        m.in_range(r),
    ensures
        m.ask_levels_at(r).len() == m.asks_at(r).len(),
{
    assert(side_wf(m.asks[r - m.min_price]));
    lemma_side_levels_count(m.asks_at(r), r as u32);
    lemma_sort_asc_len(side_levels(m.asks_at(r), r as u32, EXCHANGE_COUNT));
}

/// The bid levels at a price are as many as the bids resting there.
proof fn lemma_bid_levels_at_len(m: BookModel, r: int)
    requires
        m.inv(),
        m.in_range(r),
    ensures
        m.bid_levels_at(r).len() == m.bids_at(r).len(),
{
    assert(side_wf(m.bids[r - m.min_price]));
    lemma_side_levels_count(m.bids_at(r), r as u32);
    lemma_sort_desc_len(side_levels(m.bids_at(r), r as u32, EXCHANGE_COUNT));
}

proof fn lemma_asks_below_mono(m: BookModel, a: int, b: int)
    requires
        a <= b,
    ensures
        m.asks_below(a) <= m.asks_below(b),
    decreases b - a,
{
    if a < b {
        lemma_asks_below_mono(m, a, b - 1);
    }
}

proof fn lemma_bids_above_mono(m: BookModel, a: int, b: int)
    requires
        a <= b,
    ensures
        m.bids_above(a) >= m.bids_above(b),
    decreases b - a,
{
    if a < b {
        lemma_bids_above_mono(m, a + 1, b);
    }
}

proof fn lemma_ask_ladder_len(m: BookModel, p: int)
    requires
        m.inv(),
        m.min_price <= p <= m.max_price + 1,
    ensures
        m.ask_ladder(p).len() == m.asks_below(m.max_price + 1) - m.asks_below(p),
    decreases m.max_price + 1 - p,
{
    if p <= m.max_price {
        lemma_ask_ladder_len(m, p + 1);
        lemma_ask_levels_at_len(m, p);
    }
}

proof fn lemma_bid_ladder_len(m: BookModel, p: int)
    requires
        m.inv(),
        m.min_price - 1 <= p <= m.max_price,
    ensures
        m.bid_ladder(p).len() == m.bids_above(m.min_price - 1) - m.bids_above(p),
    decreases p - m.min_price + 1,
{
    if p >= m.min_price {
        lemma_bid_ladder_len(m, p - 1);
        lemma_bid_levels_at_len(m, p);
    }
}

/// In the ask ladder from `p`, the levels at price `r` come after every
/// ask resting from `p` up to `r`.
proof fn lemma_ask_ladder_layout(m: BookModel, p: int, r: int, j: int)
    requires
        m.inv(),
        m.min_price <= p <= r <= m.max_price,
        0 <= j < m.asks_at(r).len(),
    ensures
        m.asks_below(r) - m.asks_below(p) + j < m.ask_ladder(p).len(),
        m.ask_ladder(p)[m.asks_below(r) - m.asks_below(p) + j] == m.ask_levels_at(r)[j],
    decreases r - p,
{
    lemma_ask_levels_at_len(m, p);
    lemma_ask_levels_at_len(m, r);
    lemma_ask_ladder_len(m, p);
    lemma_asks_below_mono(m, r + 1, m.max_price + 1);
    let here = m.ask_levels_at(p);
    let rest = m.ask_ladder(p + 1);
    assert(m.ask_ladder(p) == here + rest);
    if r > p {
        lemma_ask_ladder_layout(m, p + 1, r, j);
        lemma_asks_below_mono(m, p + 1, r);
        assert(m.asks_below(p + 1) == m.asks_below(p) + m.asks_at(p).len());
        let t = m.asks_below(r) - m.asks_below(p + 1) + j;
        assert(m.asks_below(r) - m.asks_below(p) + j == here.len() + t);
        assert((here + rest)[here.len() + t] == rest[t]);
    } else {
        assert((here + rest)[j] == here[j]);
    }
}

/// In the bid ladder from `p`, the levels at price `r` come after every
/// bid resting from `p` down to `r`.
proof fn lemma_bid_ladder_layout(m: BookModel, p: int, r: int, j: int)
    requires
        m.inv(),
        m.min_price <= r <= p <= m.max_price,
        0 <= j < m.bids_at(r).len(),
    ensures
        m.bids_above(r) - m.bids_above(p) + j < m.bid_ladder(p).len(),
        m.bid_ladder(p)[m.bids_above(r) - m.bids_above(p) + j] == m.bid_levels_at(r)[j],
    decreases p - r,
{
    lemma_bid_levels_at_len(m, p);
    lemma_bid_levels_at_len(m, r);
    lemma_bid_ladder_len(m, p);
    lemma_bids_above_mono(m, m.min_price - 1, r - 1);
    let here = m.bid_levels_at(p);
    let rest = m.bid_ladder(p - 1);
    assert(m.bid_ladder(p) == here + rest);
    if r < p {
        lemma_bid_ladder_layout(m, p - 1, r, j);
        lemma_bids_above_mono(m, r, p - 1);
        assert(m.bids_above(p - 1) == m.bids_above(p) + m.bids_at(p).len());
        let t = m.bids_above(r) - m.bids_above(p - 1) + j;
        assert(m.bids_above(r) - m.bids_above(p) + j == here.len() + t);
        assert((here + rest)[here.len() + t] == rest[t]);
    } else {
        assert((here + rest)[j] == here[j]);
    }
}

/// No ask rests below the best ask.
proof fn lemma_asks_below_best(m: BookModel, p: int)
    requires
        m.inv(),
        p <= m.ask_min,
        p <= m.max_price + 1,
    ensures
        m.asks_below(p) == 0,
    decreases p - m.min_price,
{
    if p > m.min_price {
        lemma_asks_below_best(m, p - 1);
        assert(!m.has_ask(p - 1));
        assert(m.asks_at(p - 1).dom() =~= Set::<u32>::empty());
    }
}

/// No bid rests above the best bid.
proof fn lemma_bids_above_best(m: BookModel, p: int)
    requires
        m.inv(),
        m.has_bids(),
        p >= m.bid_max,
    ensures
        m.bids_above(p) == 0,
    decreases m.max_price - p,
{
    if p < m.max_price {
        lemma_bids_above_best(m, p + 1);
        assert(!m.has_bid(p + 1));
        assert(m.bids_at(p + 1).dom() =~= Set::<u32>::empty());
    }
}

/// No bid rests anywhere in an empty bid side.
proof fn lemma_bids_above_none(m: BookModel, p: int)
    requires
        m.inv(),
        !m.has_bids(),
        p >= m.min_price - 1,
    ensures
        m.bids_above(p) == 0,
    decreases m.max_price - p,
{
    if p < m.max_price {
        lemma_bids_above_none(m, p + 1);
        assert(!m.has_bid(p + 1));
        assert(m.bids_at(p + 1).dom() =~= Set::<u32>::empty());
    }
}

/// Completeness of the summary's asks: when the asks resting below price
/// `p` and at `p` together fit in `levels`, every ask resting at `p`, of
/// every exchange, is listed in the summary.
pub proof fn law_summary_asks_are_complete(m: BookModel, p: int, k: u32)
    requires
        m.inv(),
        m.in_range(p),
        m.asks_at(p).contains_key(k),
        m.asks_below(p) + m.asks_at(p).len() <= m.levels,
    ensures
        m.summary_asks().contains(
            Level {
                price: p as u32,
                quantity: m.asks_at(p)[k],
                exchange: ExchangeType::spec_from_index(k),
            },
        ),
{
    let x = Level {
        price: p as u32,
        quantity: m.asks_at(p)[k],
        exchange: ExchangeType::spec_from_index(k),
    };
    let side = m.asks_at(p);
    assert(side_wf(m.asks[p - m.min_price]));
    assert(m.has_ask(p));
    assert(m.ask_min <= p);
    lemma_side_levels_has(side, p as u32, EXCHANGE_COUNT, k);
    lemma_sort_asc_contains(side_levels(side, p as u32, EXCHANGE_COUNT));
    let here = m.ask_levels_at(p);
    assert(here.contains(x));
    let j = choose|j: int| 0 <= j < here.len() && here[j] == x;
    lemma_ask_levels_at_len(m, p);
    lemma_asks_below_best(m, m.ask_min as int);
    lemma_ask_ladder_layout(m, m.ask_min as int, p, j);
    let ladder = m.ask_ladder(m.ask_min as int);
    let pos = m.asks_below(p) + j;
    assert(ladder[pos] == x);
    let summary = m.summary_asks();
    if ladder.len() <= m.levels {
        assert(summary[pos] == x);
    } else {
        assert(summary[pos] == x);
    }
}

/// Completeness of the summary's bids: when the bids resting above price
/// `p` and at `p` together fit in `levels`, every bid resting at `p`, of
/// every exchange, is listed in the summary.
pub proof fn law_summary_bids_are_complete(m: BookModel, p: int, k: u32)
    requires
        m.inv(),
        m.in_range(p),
        m.bids_at(p).contains_key(k),
        m.bids_above(p) + m.bids_at(p).len() <= m.levels,
    ensures
        m.summary_bids().contains(
            Level {
                price: p as u32,
                quantity: m.bids_at(p)[k],
                exchange: ExchangeType::spec_from_index(k),
            },
        ),
{
    let x = Level {
        price: p as u32,
        quantity: m.bids_at(p)[k],
        exchange: ExchangeType::spec_from_index(k),
    };
    let side = m.bids_at(p);
    assert(side_wf(m.bids[p - m.min_price]));
    assert(m.has_bid(p));
    assert(p <= m.bid_max);
    lemma_side_levels_has(side, p as u32, EXCHANGE_COUNT, k);
    lemma_sort_desc_contains(side_levels(side, p as u32, EXCHANGE_COUNT));
    let here = m.bid_levels_at(p);
    assert(here.contains(x));
    let j = choose|j: int| 0 <= j < here.len() && here[j] == x;
    lemma_bid_levels_at_len(m, p);
    lemma_bids_above_best(m, m.bid_max as int);
    lemma_bid_ladder_layout(m, m.bid_max as int, p, j);
    let ladder = m.bid_ladder(m.bid_max as int);
    let pos = m.bids_above(p) + j;
    assert(ladder[pos] == x);
    let summary = m.summary_bids();
    assert(summary[pos] == x);
}

/// The summary lists `levels` asks, or every resting ask if there are fewer.
pub proof fn law_summary_asks_count(m: BookModel)
    requires
        m.inv(),
    ensures
        m.summary_asks().len() == if m.asks_below(m.max_price + 1) < m.levels {
            m.asks_below(m.max_price + 1) as int
        } else {
            m.levels as int
        },
{
    let a = m.ask_min as int;
    if a <= m.max_price + 1 {
        lemma_asks_below_best(m, a);
        lemma_ask_ladder_len(m, a);
    } else {
        lemma_asks_below_best(m, m.max_price + 1);
    }
}

/// The summary lists `levels` bids, or every resting bid if there are fewer.
pub proof fn law_summary_bids_count(m: BookModel)
    requires
        m.inv(),
    ensures
        m.summary_bids().len() == if m.bids_above(m.min_price - 1) < m.levels {
            m.bids_above(m.min_price - 1) as int
        } else {
            m.levels as int
        },
{
    let b = m.bid_max as int;
    if m.has_bids() {
        lemma_bids_above_best(m, b);
        lemma_bid_ladder_len(m, b);
    } else {
        lemma_bids_above_none(m, m.min_price - 1);
        if b >= m.min_price {
            lemma_bid_ladder_len(m, b);
            lemma_bids_above_none(m, b);
        }
    }
}

/// The summary's bids are the best ones: a resting bid better than a listed
/// one (at a higher price, or at the same price with a larger quantity) is
/// listed too.
pub proof fn law_summary_bids_are_best(m: BookModel, p: int, k: u32, i: int)
    requires
        m.inv(),
        m.in_range(p),
        m.bids_at(p).contains_key(k),
        0 <= i < m.summary_bids().len(),
        p > m.summary_bids()[i].price || (p == m.summary_bids()[i].price && m.bids_at(p)[k]
            > m.summary_bids()[i].quantity),
    ensures
        m.summary_bids().contains(
            Level {
                price: p as u32,
                quantity: m.bids_at(p)[k],
                exchange: ExchangeType::spec_from_index(k),
            },
        ),
{
    let x = Level {
        price: p as u32,
        quantity: m.bids_at(p)[k],
        exchange: ExchangeType::spec_from_index(k),
    };
    let side = m.bids_at(p);
    assert(side_wf(m.bids[p - m.min_price]));
    assert(m.has_bid(p));
    assert(p <= m.bid_max);
    lemma_side_levels_has(side, p as u32, EXCHANGE_COUNT, k);
    lemma_sort_desc_contains(side_levels(side, p as u32, EXCHANGE_COUNT));
    let here = m.bid_levels_at(p);
    assert(here.contains(x));
    let j = choose|j: int| 0 <= j < here.len() && here[j] == x;
    lemma_bid_levels_at_len(m, p);
    lemma_bids_above_best(m, m.bid_max as int);
    lemma_bid_ladder_layout(m, m.bid_max as int, p, j);
    lemma_bid_ladder(m, m.bid_max as int);
    let ladder = m.bid_ladder(m.bid_max as int);
    let pos = m.bids_above(p) + j;
    let summary = m.summary_bids();
    assert(summary[i] == ladder[i]);
    assert(ladder[pos] == x);
    assert(pos < i) by {
        if i <= pos {
            assert(ladder[i].price >= ladder[pos].price);
            if i < pos && ladder[i].price == ladder[pos].price {
                assert(ladder[i].quantity >= ladder[pos].quantity);
            }
        }
    }
    assert(summary[pos] == x);
}

/// The summary's asks are the best ones: a resting ask better than a listed
/// one (at a lower price, or at the same price with a smaller quantity) is
/// listed too.
pub proof fn law_summary_asks_are_best(m: BookModel, p: int, k: u32, i: int)
    requires
        m.inv(),
        m.in_range(p),
        m.asks_at(p).contains_key(k),
        0 <= i < m.summary_asks().len(),
        p < m.summary_asks()[i].price || (p == m.summary_asks()[i].price && m.asks_at(p)[k]
            < m.summary_asks()[i].quantity),
    ensures
        m.summary_asks().contains(
            Level {
                price: p as u32,
                quantity: m.asks_at(p)[k],
                exchange: ExchangeType::spec_from_index(k),
            },
        ),
{
    let x = Level {
        price: p as u32,
        quantity: m.asks_at(p)[k],
        exchange: ExchangeType::spec_from_index(k),
    };
    let side = m.asks_at(p);
    assert(side_wf(m.asks[p - m.min_price]));
    assert(m.has_ask(p));
    assert(m.ask_min <= p);
    lemma_side_levels_has(side, p as u32, EXCHANGE_COUNT, k);
    lemma_sort_asc_contains(side_levels(side, p as u32, EXCHANGE_COUNT));
    let here = m.ask_levels_at(p);
    assert(here.contains(x));
    let j = choose|j: int| 0 <= j < here.len() && here[j] == x;
    lemma_ask_levels_at_len(m, p);
    lemma_asks_below_best(m, m.ask_min as int);
    lemma_ask_ladder_layout(m, m.ask_min as int, p, j);
    lemma_ask_ladder(m, m.ask_min as int);
    let ladder = m.ask_ladder(m.ask_min as int);
    let pos = m.asks_below(p) + j;
    let summary = m.summary_asks();
    assert(summary[i] == ladder[i]);
    assert(ladder[pos] == x);
    assert(pos < i) by {
        if i <= pos {
            assert(ladder[i].price <= ladder[pos].price);
            if i < pos && ladder[i].price == ladder[pos].price {
                assert(ladder[i].quantity <= ladder[pos].quantity);
            }
        }
    }
    assert(summary[pos] == x);
}

} // verus!
