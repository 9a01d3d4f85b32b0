use vstd::prelude::*;

use crate::exchange::{OrderbookError, Update, EXCHANGE_COUNT};
use crate::model::{last_at, level_is, mentions, same_level, side_wf, BookModel};

verus! {

/// Applying levels never touches the recorded update ids.
proof fn lemma_applied_keeps_ids(m: BookModel, e: u32, s: Seq<(u32, u64)>)
    ensures
        m.bids_applied(e, s).last_update_ids == m.last_update_ids,
        m.asks_applied(e, s).last_update_ids == m.last_update_ids,
    decreases s.len(),
{
    if s.len() > 0 {
        lemma_applied_keeps_ids(m, e, s.drop_last());
    }
}

/// An update that is not newer than the last one seen from its exchange
/// leaves the book as it is.
pub proof fn law_stale_update_is_ignored(m: BookModel, u: Update)
    requires
        u.exchange is Some,
        u.last_update_id <= m.last_update_ids[u.exchange->0.spec_index() as int],
    ensures
        m.update_result(u) == Ok::<BookModel, OrderbookError>(m),
{
}

/// An update without exchange is refused.
pub proof fn law_update_without_exchange_is_refused(m: BookModel, u: Update)
    requires
        u.exchange is None,
    ensures
        m.update_result(u) == Err::<BookModel, OrderbookError>(OrderbookError::MissingExchange),
{
}

/// After an update, the last update id of its exchange is the larger of
/// the old one and the update's, and the other exchanges' are unchanged.
pub proof fn law_update_records_its_id(m: BookModel, u: Update)
    requires
        m.inv(),
        u.exchange is Some,
    ensures
        m.update_result(u) matches Ok(n) && {
            let i = u.exchange->0.spec_index() as int;
            &&& n.last_update_ids.len() == m.last_update_ids.len()
            &&& n.last_update_ids[i] == if u.last_update_id > m.last_update_ids[i] {
                u.last_update_id
            } else {
                m.last_update_ids[i]
            }
            &&& forall|j: int| 0 <= j < n.last_update_ids.len() && j != i ==> n.last_update_ids[j]
                == m.last_update_ids[j]
        },
{
    let i = u.exchange->0.spec_index();
    let recorded = m.with_last_update_id(i, u.last_update_id);
    lemma_applied_keeps_ids(recorded, i, u.bids@);
    lemma_applied_keeps_ids(recorded.bids_applied(i, u.bids@), i, u.asks@);
}

/// Delivering the same update twice has the effect of delivering it once.
pub proof fn law_update_replay_is_noop(m: BookModel, u: Update)
    requires
        m.inv(),
        m.update_result(u) is Ok,
    ensures
        m.update_result(u)->Ok_0.update_ok(u),
        m.update_result(u)->Ok_0.update_result(u) == m.update_result(u),
{
    law_update_records_its_id(m, u);
}

/// `highest_bid_from` only reads the price range and the bids.
proof fn lemma_highest_bid_from_bids_only(m1: BookModel, m2: BookModel, k: int)
    requires
        m1.min_price == m2.min_price,
        m1.max_price == m2.max_price,
        m1.bids == m2.bids,
    ensures
        m1.highest_bid_from(k) == m2.highest_bid_from(k),
    decreases k - m1.min_price + 1,
{
    if k >= m1.min_price {
        lemma_highest_bid_from_bids_only(m1, m2, k - 1);
    }
}

/// `lowest_ask_from` only reads the price range and the asks.
proof fn lemma_lowest_ask_from_asks_only(m1: BookModel, m2: BookModel, k: int)
    requires
        m1.min_price == m2.min_price,
        m1.max_price == m2.max_price,
        m1.asks == m2.asks,
    ensures
        m1.lowest_ask_from(k) == m2.lowest_ask_from(k),
    decreases m1.max_price - k + 1,
{
    if k <= m1.max_price {
        lemma_lowest_ask_from_asks_only(m1, m2, k + 1);
    }
}

/// Under the invariant, searching down from at or above the best bid finds the best bid.
proof fn lemma_highest_bid_is_best(m: BookModel, k: int)
    requires
        m.inv(),
        m.has_bids(),
        k >= m.bid_max,
    ensures
        m.highest_bid_from(k) == m.bid_max,
    decreases k - m.min_price + 1,
{
    if k > m.bid_max {
        lemma_highest_bid_is_best(m, k - 1);
    }
}

/// Under the invariant, searching up from at or below the best ask finds the best ask.
proof fn lemma_lowest_ask_is_best(m: BookModel, k: int)
    requires
        m.inv(),
        m.has_asks(),
        k <= m.ask_min,
    ensures
        m.lowest_ask_from(k) == m.ask_min,
    decreases m.max_price - k + 1,
{
    if k < m.ask_min {
        lemma_lowest_ask_is_best(m, k + 1);
    }
}

/// The best bid is the highest price with a bid, and the best ask the
/// lowest price with an ask.
pub proof fn law_best_prices(m: BookModel)
    requires
        m.inv(),
    ensures
        m.has_bids() ==> m.has_bid(m.bid_max as int) && forall|p: int| #[trigger]
            m.has_bid(p) ==> p <= m.bid_max,
        m.has_asks() ==> m.has_ask(m.ask_min as int) && forall|p: int| #[trigger]
            m.has_ask(p) ==> m.ask_min <= p,
{
}

/// Placing a new bid and then removing it gives back the book, provided
/// the book had a bid to fall back on.
pub proof fn law_bid_then_remove_restores(m: BookModel, e: u32, p: u32, q: u64)
    requires
        m.inv(),
        e < EXCHANGE_COUNT,
        m.in_range(p as int),
        q > 0,
        !m.bids_at(p as int).contains_key(e),
        m.has_bids(),
    ensures
        m.bid_step(e, p, q).bid_step_ok(e, p, 0),
        m.bid_step(e, p, q).bid_step(e, p, 0) == m,
{
    let n = m.bid_step(e, p, q);
    let i = p - m.min_price;
    let removed = n.bid_removed(e, p as int);
    assert(n.bids_at(p as int).remove(e) =~= m.bids_at(p as int));
    assert(removed.bids =~= m.bids);
    if p > m.bid_max {
        assert(!m.has_bid(p as int));
        assert(removed.bids_at(p as int).is_empty());
        lemma_highest_bid_is_best(m, p - 1);
        lemma_highest_bid_from_bids_only(removed, m, p - 1);
        assert(n.bid_step(e, p, 0) == m);
    } else {
        assert(m.has_bid(m.bid_max as int));
        assert(removed == m);
    }
}

/// Placing a new ask and then removing it gives back the book, provided
/// the book had an ask to fall back on.
pub proof fn law_ask_then_remove_restores(m: BookModel, e: u32, p: u32, q: u64)
    requires
        m.inv(),
        e < EXCHANGE_COUNT,
        m.in_range(p as int),
        q > 0,
        !m.asks_at(p as int).contains_key(e),
        m.has_asks(),
    ensures
        m.ask_step(e, p, q).ask_step_ok(e, p, 0),
        m.ask_step(e, p, q).ask_step(e, p, 0) == m,
{
    let n = m.ask_step(e, p, q);
    let i = p - m.min_price;
    let removed = n.ask_removed(e, p as int);
    assert(n.asks_at(p as int).remove(e) =~= m.asks_at(p as int));
    assert(removed.asks =~= m.asks);
    if p < m.ask_min {
        assert(!m.has_ask(p as int));
        assert(removed.asks_at(p as int).is_empty());
        lemma_lowest_ask_is_best(m, p + 1);
        lemma_lowest_ask_from_asks_only(removed, m, p + 1);
        assert(n.ask_step(e, p, 0) == m);
    } else {
        assert(m.has_ask(m.ask_min as int));
        assert(removed == m);
    }
}

/// After a bid of quantity `q > 0` at a price in range, the book holds
/// exactly that bid for the exchange, and the best bid is at least that price.
pub proof fn law_bid_is_recorded(m: BookModel, e: u32, p: u32, q: u64)
    requires
        m.inv(),
        m.in_range(p as int),
        q > 0,
    ensures
        m.bid_step(e, p, q).bids_at(p as int).contains_key(e),
        m.bid_step(e, p, q).bids_at(p as int)[e] == q,
        m.bid_step(e, p, q).bid_max >= p,
{
}

/// After an ask of quantity `q > 0` at a price in range, the book holds
/// exactly that ask for the exchange, and the best ask is at most that price.
pub proof fn law_ask_is_recorded(m: BookModel, e: u32, p: u32, q: u64)
    requires
        m.inv(),
        m.in_range(p as int),
        q > 0,
    ensures
        m.ask_step(e, p, q).asks_at(p as int).contains_key(e),
        m.ask_step(e, p, q).asks_at(p as int)[e] == q,
        m.ask_step(e, p, q).ask_min <= p,
{
}

/// Levels outside the price range leave the book as it is.
pub proof fn law_out_of_range_levels_are_ignored(m: BookModel, e: u32, p: u32, q: u64)
    requires
        !m.in_range(p as int),
    ensures
        m.bid_step(e, p, q) == m,
        m.ask_step(e, p, q) == m,
        m.bid_step_ok(e, p, q),
        m.ask_step_ok(e, p, q),
{
}

/// A side of a price point holds at most one level per exchange.
proof fn lemma_side_len(side: Map<u32, u64>)
    requires
        side_wf(side),
    ensures
        side.len() <= EXCHANGE_COUNT,
{
    let all = Set::<u32>::empty().insert(0).insert(1);
    assert(side.dom().subset_of(all));
    vstd::set_lib::lemma_len_subset(side.dom(), all);
}

/// Every price point holds at most as many bids, and as many asks, as
/// there are exchanges.
pub proof fn law_price_point_holds_one_level_per_exchange(m: BookModel, p: int)
    requires
        m.inv(),
        m.in_range(p),
    ensures
        m.bids_at(p).len() <= EXCHANGE_COUNT,
        m.asks_at(p).len() <= EXCHANGE_COUNT,
{
    assert(side_wf(m.bids[p - m.min_price]));
    assert(side_wf(m.asks[p - m.min_price]));
    lemma_side_len(m.bids_at(p));
    lemma_side_len(m.asks_at(p));
}

/// What one bid step does to the sides of the book.
proof fn lemma_bid_step_frame(m: BookModel, e: u32, p: u32, q: u64)
    requires
        m.shaped(),
    ensures
        ({
            let n = m.bid_step(e, p, q);
            &&& n.shaped()
            &&& n.min_price == m.min_price && n.max_price == m.max_price
            &&& n.asks == m.asks
            &&& n.last_update_ids == m.last_update_ids
            &&& forall|r: int, k: u32|
                m.in_range(r) && (r != p || k != e) ==> #[trigger] same_level(
                    n.bids_at(r),
                    m.bids_at(r),
                    k,
                )
            &&& m.in_range(p as int) ==> level_is(n.bids_at(p as int), e, q)
        }),
{
    let n = m.bid_step(e, p, q);
    if m.in_range(p as int) {
        assert forall|r: int, k: u32| m.in_range(r) && (r != p || k != e) implies #[trigger] same_level(
            n.bids_at(r),
            m.bids_at(r),
            k,
        ) by {
            if r != p {
                assert(n.bids_at(r) == m.bids_at(r));
            }
        }
    }
}

/// What one ask step does to the sides of the book.
proof fn lemma_ask_step_frame(m: BookModel, e: u32, p: u32, q: u64)
    requires
        m.shaped(),
    ensures
        ({
            let n = m.ask_step(e, p, q);
            &&& n.shaped()
            &&& n.min_price == m.min_price && n.max_price == m.max_price
            &&& n.bids == m.bids
            &&& n.last_update_ids == m.last_update_ids
            &&& forall|r: int, k: u32|
                m.in_range(r) && (r != p || k != e) ==> #[trigger] same_level(
                    n.asks_at(r),
                    m.asks_at(r),
                    k,
                )
            &&& m.in_range(p as int) ==> level_is(n.asks_at(p as int), e, q)
        }),
{
    let n = m.ask_step(e, p, q);
    if m.in_range(p as int) {
        assert forall|r: int, k: u32| m.in_range(r) && (r != p || k != e) implies #[trigger] same_level(
            n.asks_at(r),
            m.asks_at(r),
            k,
        ) by {
            if r != p {
                assert(n.asks_at(r) == m.asks_at(r));
            }
        }
    }
}

/// A bid by exchange `e` at price `p` sets `e`'s bid at `p` (a zero
/// quantity removes it) and leaves every other bid of every exchange, and
/// every ask, as it was.
pub proof fn law_bid_step_touches_only_its_level(m: BookModel, e: u32, p: u32, q: u64)
    requires
        m.inv(),
    ensures
        ({
            let n = m.bid_step(e, p, q);
            &&& n.min_price == m.min_price && n.max_price == m.max_price
            &&& forall|r: int| m.in_range(r) ==> #[trigger] n.asks_at(r) == m.asks_at(r)
            &&& forall|r: int, k: u32|
                m.in_range(r) && (r != p || k != e) ==> #[trigger] same_level(
                    n.bids_at(r),
                    m.bids_at(r),
                    k,
                )
            &&& m.in_range(p as int) ==> level_is(n.bids_at(p as int), e, q)
        }),
{
    lemma_bid_step_frame(m, e, p, q);
}

/// An ask by exchange `e` at price `p` sets `e`'s ask at `p` (a zero
/// quantity removes it) and leaves every other ask of every exchange, and
/// every bid, as it was.
pub proof fn law_ask_step_touches_only_its_level(m: BookModel, e: u32, p: u32, q: u64)
    requires
        m.inv(),
    ensures
        ({
            let n = m.ask_step(e, p, q);
            &&& n.min_price == m.min_price && n.max_price == m.max_price
            &&& forall|r: int| m.in_range(r) ==> #[trigger] n.bids_at(r) == m.bids_at(r)
            &&& forall|r: int, k: u32|
                m.in_range(r) && (r != p || k != e) ==> #[trigger] same_level(
                    n.asks_at(r),
                    m.asks_at(r),
                    k,
                )
            &&& m.in_range(p as int) ==> level_is(n.asks_at(p as int), e, q)
        }),
{
    lemma_ask_step_frame(m, e, p, q);
}

/// What applying a sequence of bid levels of exchange `e` does.
proof fn lemma_bids_applied_frame(m: BookModel, e: u32, s: Seq<(u32, u64)>)
    requires
        m.shaped(),
    ensures
        ({
            let n = m.bids_applied(e, s);
            &&& n.shaped()
            &&& n.min_price == m.min_price && n.max_price == m.max_price
            &&& n.asks == m.asks
            &&& n.last_update_ids == m.last_update_ids
            &&& forall|r: int, k: u32|
                m.in_range(r) && k != e ==> #[trigger] same_level(n.bids_at(r), m.bids_at(r), k)
            &&& forall|r: int|
                m.in_range(r) && !mentions(s, r) ==> #[trigger] same_level(
                    n.bids_at(r),
                    m.bids_at(r),
                    e,
                )
            &&& forall|i: int|
                last_at(s, i) && m.in_range(s[i].0 as int) ==> #[trigger] level_is(
                    n.bids_at(s[i].0 as int),
                    e,
                    s[i].1,
                )
        }),
    decreases s.len(),
{
    if s.len() > 0 {
        let s1 = s.drop_last();
        let n1 = m.bids_applied(e, s1);
        let p = s.last().0;
        let q = s.last().1;
        let n = m.bids_applied(e, s);
        lemma_bids_applied_frame(m, e, s1);
        lemma_bid_step_frame(n1, e, p, q);
        assert(n == n1.bid_step(e, p, q));
        assert forall|r: int, k: u32| m.in_range(r) && k != e implies #[trigger] same_level(
            n.bids_at(r),
            m.bids_at(r),
            k,
        ) by {
            assert(same_level(n1.bids_at(r), m.bids_at(r), k));
            assert(same_level(n.bids_at(r), n1.bids_at(r), k));
        }
        assert forall|r: int| m.in_range(r) && !mentions(s, r) implies #[trigger] same_level(
            n.bids_at(r),
            m.bids_at(r),
            e,
        ) by {
            if mentions(s1, r) {
                let i = choose|i: int| 0 <= i < s1.len() && #[trigger] s1[i].0 == r;
                assert(s[i].0 == r);
            }
            if p == r {
                assert(s[s.len() - 1].0 == r);
            }
            assert(same_level(n1.bids_at(r), m.bids_at(r), e));
            assert(same_level(n.bids_at(r), n1.bids_at(r), e));
        }
        assert forall|i: int| last_at(s, i) && m.in_range(s[i].0 as int) implies #[trigger] level_is(
            n.bids_at(s[i].0 as int),
            e,
            s[i].1,
        ) by {
            if i < s.len() - 1 {
                assert(s1[i] == s[i]);
                assert forall|j: int| i < j < s1.len() implies #[trigger] s1[j].0 != s1[i].0 by {
                    assert(s[j].0 != s[i].0);
                }
                assert(last_at(s1, i));
                assert(s[s.len() - 1].0 != s[i].0);
                assert(level_is(n1.bids_at(s[i].0 as int), e, s[i].1));
                assert(same_level(n.bids_at(s[i].0 as int), n1.bids_at(s[i].0 as int), e));
            }
        }
    }
}

/// What applying a sequence of ask levels of exchange `e` does.
proof fn lemma_asks_applied_frame(m: BookModel, e: u32, s: Seq<(u32, u64)>)
    requires
        m.shaped(),
    ensures
        ({
            let n = m.asks_applied(e, s);
            &&& n.shaped()
            &&& n.min_price == m.min_price && n.max_price == m.max_price
            &&& n.bids == m.bids
            &&& n.last_update_ids == m.last_update_ids
            &&& forall|r: int, k: u32|
                m.in_range(r) && k != e ==> #[trigger] same_level(n.asks_at(r), m.asks_at(r), k)
            &&& forall|r: int|
                m.in_range(r) && !mentions(s, r) ==> #[trigger] same_level(
                    n.asks_at(r),
                    m.asks_at(r),
                    e,
                )
            &&& forall|i: int|
                last_at(s, i) && m.in_range(s[i].0 as int) ==> #[trigger] level_is(
                    n.asks_at(s[i].0 as int),
                    e,
                    s[i].1,
                )
        }),
    decreases s.len(),
{
    if s.len() > 0 {
        let s1 = s.drop_last();
        let n1 = m.asks_applied(e, s1);
        let p = s.last().0;
        let q = s.last().1;
        let n = m.asks_applied(e, s);
        lemma_asks_applied_frame(m, e, s1);
        lemma_ask_step_frame(n1, e, p, q);
        assert(n == n1.ask_step(e, p, q));
        assert forall|r: int, k: u32| m.in_range(r) && k != e implies #[trigger] same_level(
            n.asks_at(r),
            m.asks_at(r),
            k,
        ) by {
            assert(same_level(n1.asks_at(r), m.asks_at(r), k));
            assert(same_level(n.asks_at(r), n1.asks_at(r), k));
        }
        assert forall|r: int| m.in_range(r) && !mentions(s, r) implies #[trigger] same_level(
            n.asks_at(r),
            m.asks_at(r),
            e,
        ) by {
            if mentions(s1, r) {
                let i = choose|i: int| 0 <= i < s1.len() && #[trigger] s1[i].0 == r;
                assert(s[i].0 == r);
            }
            if p == r {
                assert(s[s.len() - 1].0 == r);
            }
            assert(same_level(n1.asks_at(r), m.asks_at(r), e));
            assert(same_level(n.asks_at(r), n1.asks_at(r), e));
        }
        assert forall|i: int| last_at(s, i) && m.in_range(s[i].0 as int) implies #[trigger] level_is(
            n.asks_at(s[i].0 as int),
            e,
            s[i].1,
        ) by {
            if i < s.len() - 1 {
                assert(s1[i] == s[i]);
                assert forall|j: int| i < j < s1.len() implies #[trigger] s1[j].0 != s1[i].0 by {
                    assert(s[j].0 != s[i].0);
                }
                assert(last_at(s1, i));
                assert(s[s.len() - 1].0 != s[i].0);
                assert(level_is(n1.asks_at(s[i].0 as int), e, s[i].1));
                assert(same_level(n.asks_at(s[i].0 as int), n1.asks_at(s[i].0 as int), e));
            }
        }
    }
}

/// A newer update from exchange `x` sets `x`'s levels: at each price in
/// range, the last level the update gives for that price is `x`'s level
/// there (a zero quantity removes it), `x`'s levels at prices the update
/// does not mention are unchanged, and every other exchange's levels are
/// unchanged.
pub proof fn law_update_sets_levels_of_its_exchange(m: BookModel, u: Update)
    requires
        m.inv(),
        u.exchange is Some,
        u.last_update_id > m.last_update_ids[u.exchange->0.spec_index() as int],
    ensures
        m.update_result(u) matches Ok(n) && {
            let x = u.exchange->0.spec_index();
            let bids = u.bids@;
            let asks = u.asks@;
            &&& forall|r: int, k: u32|
                m.in_range(r) && k != x ==> #[trigger] same_level(n.bids_at(r), m.bids_at(r), k)
            &&& forall|r: int, k: u32|
                m.in_range(r) && k != x ==> #[trigger] same_level(n.asks_at(r), m.asks_at(r), k)
            &&& forall|r: int|
                m.in_range(r) && !mentions(bids, r) ==> #[trigger] same_level(
                    n.bids_at(r),
                    m.bids_at(r),
                    x,
                )
            &&& forall|r: int|
                m.in_range(r) && !mentions(asks, r) ==> #[trigger] same_level(
                    n.asks_at(r),
                    m.asks_at(r),
                    x,
                )
            &&& forall|i: int|
                last_at(bids, i) && m.in_range(bids[i].0 as int) ==> #[trigger] level_is(
                    n.bids_at(bids[i].0 as int),
                    x,
                    bids[i].1,
                )
            &&& forall|i: int|
                last_at(asks, i) && m.in_range(asks[i].0 as int) ==> #[trigger] level_is(
                    n.asks_at(asks[i].0 as int),
                    x,
                    asks[i].1,
                )
        },
{
    let x = u.exchange->0.spec_index();
    let recorded = m.with_last_update_id(x, u.last_update_id);
    let after_bids = recorded.bids_applied(x, u.bids@);
    lemma_bids_applied_frame(recorded, x, u.bids@);
    lemma_asks_applied_frame(after_bids, x, u.asks@);
    let n = after_bids.asks_applied(x, u.asks@);
    assert(m.update_result(u) == Ok::<BookModel, OrderbookError>(n));
    assert(recorded.bids == m.bids && recorded.asks == m.asks);
    assert(n.bids == after_bids.bids && after_bids.asks == m.asks);
    assert forall|r: int, k: u32| m.in_range(r) && k != x implies #[trigger] same_level(
        n.bids_at(r),
        m.bids_at(r),
        k,
    ) by {
        assert(same_level(after_bids.bids_at(r), recorded.bids_at(r), k));
    }
    assert forall|r: int, k: u32| m.in_range(r) && k != x implies #[trigger] same_level(
        n.asks_at(r),
        m.asks_at(r),
        k,
    ) by {
        assert(same_level(n.asks_at(r), after_bids.asks_at(r), k));
    }
    assert forall|r: int| m.in_range(r) && !mentions(u.bids@, r) implies #[trigger] same_level(
        n.bids_at(r),
        m.bids_at(r),
        x,
    ) by {
        assert(same_level(after_bids.bids_at(r), recorded.bids_at(r), x));
    }
    assert forall|r: int| m.in_range(r) && !mentions(u.asks@, r) implies #[trigger] same_level(
        n.asks_at(r),
        m.asks_at(r),
        x,
    ) by {
        assert(same_level(n.asks_at(r), after_bids.asks_at(r), x));
    }
    assert forall|i: int| last_at(u.bids@, i) && m.in_range(u.bids@[i].0 as int) implies #[trigger] level_is(
        n.bids_at(u.bids@[i].0 as int),
        x,
        u.bids@[i].1,
    ) by {
        assert(level_is(after_bids.bids_at(u.bids@[i].0 as int), x, u.bids@[i].1));
    }
    assert forall|i: int| last_at(u.asks@, i) && m.in_range(u.asks@[i].0 as int) implies #[trigger] level_is(
        n.asks_at(u.asks@[i].0 as int),
        x,
        u.asks@[i].1,
    ) by {
        assert(level_is(n.asks_at(u.asks@[i].0 as int), x, u.asks@[i].1));
    }
}

} // verus!
