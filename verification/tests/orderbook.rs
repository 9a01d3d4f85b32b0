use orderbook_agg::{ExchangeType, Level, Orderbook, OrderbookError, Update};

const BINANCE: ExchangeType = ExchangeType::Binance;
const BITSTAMP: ExchangeType = ExchangeType::Bitstamp;

/// Storage price of a display price, as the book's feed converts it.
fn storage_price(price: f64, decimals: u32) -> u32 {
    (price * 10u32.pow(decimals) as f64) as u32
}

/// Storage quantity of a display quantity (8 decimals).
fn storage_quantity(quantity: f64) -> u64 {
    (quantity * 10u64.pow(8) as f64) as u64
}

struct Snapshot {
    exchange: Option<ExchangeType>,
    last_update_id: u64,
    bids: Vec<[f64; 2]>,
    asks: Vec<[f64; 2]>,
}

fn to_update(s: &Snapshot, decimals: u32) -> Update {
    let convert = |levels: &Vec<[f64; 2]>| {
        levels
            .iter()
            .map(|l| (storage_price(l[0], decimals), storage_quantity(l[1])))
            .collect::<Vec<(u32, u64)>>()
    };
    Update {
        exchange: s.exchange,
        last_update_id: s.last_update_id,
        bids: convert(&s.bids),
        asks: convert(&s.asks),
    }
}

/// Builds a book whose price range is `price_range` percent around the
/// highest snapshot bid, as the feed does.
fn book(symbol: &str, levels: u32, price_range: f64, decimals: u32, snapshots: Vec<Snapshot>) -> Orderbook {
    let max_bid = snapshots
        .iter()
        .map(|s| s.bids.iter().map(|b| b[0]).max_by(|a, b| a.partial_cmp(b).unwrap()).unwrap())
        .max_by(|a, b| a.partial_cmp(b).unwrap())
        .unwrap();
    let min_price = (max_bid * (1. - (price_range / 100.)) * 10u32.pow(decimals) as f64) as u32;
    let max_price = (max_bid * (1. + (price_range / 100.)) * 10u32.pow(decimals) as f64) as u32;
    let updates: Vec<Update> = snapshots.iter().map(|s| to_update(s, decimals)).collect();
    let symbol = symbol.to_string();
    assert!(Orderbook::can_create(&symbol, levels, min_price, max_price, decimals, &updates));
    Orderbook::new(symbol, levels, min_price, max_price, decimals, updates).unwrap()
}

fn bid_at(ob: &Orderbook, exchange: ExchangeType, price: u32) -> Option<u64> {
    ob.get_price_point(price).bids.get(&exchange.index()).copied()
}

fn ask_at(ob: &Orderbook, exchange: ExchangeType, price: u32) -> Option<u64> {
    ob.get_price_point(price).asks.get(&exchange.index()).copied()
}

fn update(exchange: ExchangeType, id: u64, bids: Vec<(u32, u64)>, asks: Vec<(u32, u64)>) -> Update {
    Update { exchange: Some(exchange), last_update_id: id, bids, asks }
}

#[test]
fn it_creates_an_orderbook() {
    let snapshots = vec![Snapshot {
        exchange: Some(ExchangeType::Binance),
        last_update_id: 1234,
        bids: vec![[1.0, 1.0]],
        asks: vec![[1.0, 1.0]],
    }];
    let ob = book("BTCUSD", 10, 10.0, 2, snapshots);
    assert_eq!(ob.price_points.len(), 21);
    let level_price = storage_price(1.0, ob.decimals());
    let level_quantity = storage_quantity(1.0);
    let pp = ob.get_price_point(level_price);
    assert_eq!(*pp.bids.get(&ExchangeType::Binance.index()).unwrap(), level_quantity);
}

#[test]
fn adds_a_bid() {
    let snapshots = vec![Snapshot {
        exchange: Some(ExchangeType::Binance),
        last_update_id: 1234,
        bids: vec![[25_900.0, 1.0]],
        asks: vec![[1.0, 1.0]],
    }];
    let mut ob = book("BTCUSD", 10, 10.0, 2, snapshots);

    let price = 26_000.0;
    let quantity = 1.0;
    let level_price = storage_price(price, ob.decimals());
    let level_quantity = storage_quantity(quantity);
    assert!(ob.can_add_bid(ExchangeType::Binance, level_price, level_quantity));
    ob.add_bid(ExchangeType::Binance, level_price, level_quantity);
    let pp = ob.get_price_point_mut(level_price);

    assert_eq!(*pp.bids.get(&ExchangeType::Binance.index()).unwrap(), level_quantity);
    assert_eq!(ob.bid_max, level_price);
}

#[test]
fn removes_a_bid() {
    let price2 = 26_100.0;
    let price1 = 26_000.0;

    let snapshots = vec![Snapshot {
        exchange: Some(ExchangeType::Binance),
        last_update_id: 1234,
        bids: vec![[price2, 1.0], [price1, 1.0]],
        asks: vec![[1.0, 1.0]],
    }];
    let mut ob = book("BTCUSD", 10, 10.0, 2, snapshots);

    let level_quantity = storage_quantity(1.0);
    let decimals = ob.decimals();
    let pp = ob.get_price_point_mut(storage_price(price2, decimals));

    assert_eq!(*pp.bids.get(&ExchangeType::Binance.index()).unwrap(), level_quantity);
    assert_eq!(ob.bid_max, storage_price(price2, decimals));

    assert!(ob.can_add_bid(ExchangeType::Binance, storage_price(price2, decimals), 0));
    ob.add_bid(ExchangeType::Binance, storage_price(price2, decimals), 0);
    assert_eq!(ob.bid_max, storage_price(price1, decimals));
}

/// A small book over storage prices 100 ..= 200 with one bid and one ask.
fn small_book(levels: u32) -> Orderbook {
    let snapshots = vec![update(BINANCE, 1, vec![(150, 5)], vec![(160, 7)])];
    assert!(Orderbook::can_create(&"ETHBTC".to_string(), levels, 100, 200, 2, &snapshots));
    Orderbook::new("ETHBTC".to_string(), levels, 100, 200, 2, snapshots).unwrap()
}

#[test]
fn new_book_has_initial_state() {
    let ob = Orderbook::new("X".to_string(), 5, 10, 20, 3, vec![]).unwrap();
    assert_eq!(ob.price_points.len(), 11);
    assert_eq!(ob.bid_max, 0);
    assert_eq!(ob.ask_min, u32::MAX);
    assert_eq!(ob.min_price, 10);
    assert_eq!(ob.max_price, 20);
    assert_eq!(ob.levels(), 5);
    assert_eq!(ob.decimals(), 3);
    assert_eq!(ob.power_quantity(), 8);
    assert_eq!(ob.symbol, "X");
}

#[test]
fn new_refuses_snapshot_without_exchange() {
    let snapshots = vec![
        update(BINANCE, 1, vec![(150, 5)], vec![]),
        Update { exchange: None, last_update_id: 2, bids: vec![], asks: vec![] },
    ];
    let r = Orderbook::new("X".to_string(), 5, 100, 200, 2, snapshots);
    assert!(matches!(r, Err(OrderbookError::MissingExchange)));
}

#[test]
fn new_applies_snapshots_of_each_exchange() {
    let snapshots = vec![
        update(BINANCE, 3, vec![(150, 5)], vec![(170, 1)]),
        update(BITSTAMP, 4, vec![(155, 6)], vec![(165, 2)]),
    ];
    let ob = Orderbook::new("X".to_string(), 5, 100, 200, 2, snapshots).unwrap();
    assert_eq!(ob.bid_max, 155);
    assert_eq!(ob.ask_min, 165);
    assert_eq!(bid_at(&ob, BINANCE, 150), Some(5));
    assert_eq!(bid_at(&ob, BITSTAMP, 155), Some(6));
}

#[test]
fn update_without_exchange_is_refused() {
    let mut ob = small_book(5);
    let u = Update { exchange: None, last_update_id: 9, bids: vec![(151, 1)], asks: vec![] };
    assert!(ob.can_update(&u));
    assert_eq!(ob.update(u), Err(OrderbookError::MissingExchange));
    assert_eq!(bid_at(&ob, BINANCE, 151), None);
    assert_eq!(ob.bid_max, 150);
}

#[test]
fn stale_update_is_skipped() {
    let mut ob = small_book(5);
    assert_eq!(ob.update(update(BINANCE, 1, vec![(190, 3)], vec![])), Ok(()));
    assert_eq!(bid_at(&ob, BINANCE, 190), None);
    assert_eq!(ob.bid_max, 150);
    assert_eq!(ob.update(update(BINANCE, 0, vec![(190, 3)], vec![])), Ok(()));
    assert_eq!(ob.bid_max, 150);
}

#[test]
fn newer_update_is_applied_and_replay_is_noop() {
    let mut ob = small_book(5);
    let u = update(BINANCE, 2, vec![(151, 4), (150, 0)], vec![(158, 3)]);
    assert_eq!(ob.update(u.clone()), Ok(()));
    assert_eq!(bid_at(&ob, BINANCE, 151), Some(4));
    assert_eq!(bid_at(&ob, BINANCE, 150), None);
    assert_eq!(ob.bid_max, 151);
    assert_eq!(ob.ask_min, 158);
    // Same update again: skipped, nothing changes.
    assert_eq!(ob.update(u), Ok(()));
    assert_eq!(bid_at(&ob, BINANCE, 151), Some(4));
    assert_eq!(ask_at(&ob, BINANCE, 158), Some(3));
    assert_eq!(ob.bid_max, 151);
}

#[test]
fn update_ids_are_per_exchange() {
    let mut ob = small_book(5);
    // Bitstamp has seen no update yet, so id 1 is new for it.
    assert_eq!(ob.update(update(BITSTAMP, 1, vec![(152, 2)], vec![])), Ok(()));
    assert_eq!(bid_at(&ob, BITSTAMP, 152), Some(2));
    assert_eq!(ob.bid_max, 152);
}

#[test]
fn out_of_range_levels_are_ignored() {
    let mut ob = small_book(5);
    ob.add_bid(BINANCE, 201, 9);
    ob.add_bid(BINANCE, 99, 9);
    ob.add_ask(BINANCE, 99, 9);
    assert_eq!(ob.bid_max, 150);
    assert_eq!(ob.ask_min, 160);
}

#[test]
fn bid_quantity_is_replaced() {
    let mut ob = small_book(5);
    ob.add_bid(BINANCE, 150, 11);
    assert_eq!(bid_at(&ob, BINANCE, 150), Some(11));
    assert_eq!(ob.bid_max, 150);
}

#[test]
fn bid_then_remove_restores() {
    let mut ob = small_book(5);
    ob.add_bid(BITSTAMP, 180, 3);
    assert_eq!(ob.bid_max, 180);
    ob.add_bid(BITSTAMP, 180, 0);
    assert_eq!(ob.bid_max, 150);
    assert_eq!(bid_at(&ob, BITSTAMP, 180), None);
    assert_eq!(bid_at(&ob, BINANCE, 150), Some(5));
}

#[test]
fn ask_then_remove_restores() {
    let mut ob = small_book(5);
    ob.add_ask(BITSTAMP, 120, 3);
    assert_eq!(ob.ask_min, 120);
    ob.add_ask(BITSTAMP, 120, 0);
    assert_eq!(ob.ask_min, 160);
    assert_eq!(ask_at(&ob, BITSTAMP, 120), None);
}

#[test]
fn removing_best_ask_moves_ask_min_up() {
    let mut ob = small_book(5);
    ob.add_ask(BITSTAMP, 175, 2);
    ob.add_ask(BINANCE, 160, 0);
    assert_eq!(ob.ask_min, 175);
}

#[test]
fn best_bid_stays_while_another_exchange_bids_there() {
    let mut ob = small_book(5);
    ob.add_bid(BITSTAMP, 150, 2);
    ob.add_bid(BINANCE, 150, 0);
    assert_eq!(ob.bid_max, 150);
    assert_eq!(bid_at(&ob, BITSTAMP, 150), Some(2));
}

#[test]
fn removing_the_last_bid_is_not_allowed() {
    let ob = small_book(5);
    assert!(!ob.can_add_bid(BINANCE, 150, 0));
    assert!(!ob.can_add_ask(BINANCE, 160, 0));
    // Removing a bid that is not the best one, or that another exchange shares, is fine.
    assert!(ob.can_add_bid(BITSTAMP, 150, 0));
    assert!(ob.can_add_bid(BINANCE, 140, 0));
    assert!(!ob.can_update(&update(BINANCE, 5, vec![(150, 0)], vec![])));
    assert!(ob.can_update(&update(BINANCE, 5, vec![(149, 1), (150, 0)], vec![])));
    assert!(ob.can_update(&update(BINANCE, 1, vec![(150, 0)], vec![])));
    // On an empty book the best bid starts at 0: removing a bid at price 0
    // has no lower bid to fall back on.
    assert!(!Orderbook::can_create(
        &"X".to_string(),
        5,
        0,
        200,
        2,
        &vec![update(BINANCE, 1, vec![(0, 0)], vec![])]
    ));
    assert!(Orderbook::can_create(
        &"X".to_string(),
        5,
        100,
        200,
        2,
        &vec![update(BINANCE, 1, vec![(150, 0)], vec![])]
    ));
}

#[test]
fn summary_orders_levels() {
    let mut ob = small_book(10);
    ob.add_bid(BITSTAMP, 150, 9);
    ob.add_bid(BITSTAMP, 140, 1);
    ob.add_ask(BITSTAMP, 160, 3);
    ob.add_ask(BITSTAMP, 170, 4);
    let s = ob.get_summary();
    assert_eq!(s.symbol, "ETHBTC");
    assert_eq!(s.timestamp, 0);
    assert_eq!(
        s.bids,
        vec![
            Level { price: 150, quantity: 9, exchange: BITSTAMP },
            Level { price: 150, quantity: 5, exchange: BINANCE },
            Level { price: 140, quantity: 1, exchange: BITSTAMP },
        ]
    );
    assert_eq!(
        s.asks,
        vec![
            Level { price: 160, quantity: 3, exchange: BITSTAMP },
            Level { price: 160, quantity: 7, exchange: BINANCE },
            Level { price: 170, quantity: 4, exchange: BITSTAMP },
        ]
    );
    assert_eq!(s.spread, 10);
}

#[test]
fn summary_ties_keep_exchange_order() {
    let mut ob = small_book(10);
    ob.add_bid(BITSTAMP, 150, 5);
    let s = ob.get_summary_bids();
    assert_eq!(
        s,
        vec![
            Level { price: 150, quantity: 5, exchange: BINANCE },
            Level { price: 150, quantity: 5, exchange: BITSTAMP },
        ]
    );
}

#[test]
fn summary_is_cut_to_levels() {
    let mut ob = small_book(2);
    ob.add_bid(BITSTAMP, 150, 9);
    ob.add_bid(BITSTAMP, 140, 1);
    ob.add_ask(BITSTAMP, 190, 4);
    let s = ob.get_summary();
    assert_eq!(s.bids.len(), 2);
    assert_eq!(s.bids[1], Level { price: 150, quantity: 5, exchange: BINANCE });
    assert_eq!(s.asks.len(), 2);
    assert_eq!(s.asks[1], Level { price: 190, quantity: 4, exchange: BITSTAMP });
}

#[test]
fn summary_with_crossed_book_has_negative_spread() {
    let mut ob = small_book(1);
    ob.add_bid(BITSTAMP, 170, 1);
    let s = ob.get_summary();
    assert_eq!(s.spread, -10);
    assert_eq!(s.bids, vec![Level { price: 170, quantity: 1, exchange: BITSTAMP }]);
}

#[test]
fn summary_bids_stop_at_min_price() {
    let snapshots = vec![update(BINANCE, 1, vec![(101, 5), (100, 6)], vec![])];
    let ob = Orderbook::new("X".to_string(), 10, 100, 200, 2, snapshots).unwrap();
    assert_eq!(
        ob.get_summary_bids(),
        vec![
            Level { price: 101, quantity: 5, exchange: BINANCE },
            Level { price: 100, quantity: 6, exchange: BINANCE },
        ]
    );
}

#[test]
fn exchange_indices_round_trip() {
    assert_eq!(BINANCE.index(), 0);
    assert_eq!(BITSTAMP.index(), 1);
    assert_eq!(ExchangeType::from_index(1), BITSTAMP);
    assert_eq!(orderbook_agg::all_exchanges(), vec![BINANCE, BITSTAMP]);
}

#[test]
fn price_point_holds_one_level_per_exchange() {
    let mut ob = small_book(5);
    ob.add_bid(BINANCE, 150, 1);
    ob.add_bid(BITSTAMP, 150, 2);
    ob.add_bid(BITSTAMP, 150, 3);
    assert_eq!(ob.get_price_point(150).bids.len(), 2);
    assert_eq!(bid_at(&ob, BINANCE, 150), Some(1));
    assert_eq!(bid_at(&ob, BITSTAMP, 150), Some(3));
}

#[test]
fn update_applies_bids_then_asks_in_order() {
    let mut ob = small_book(5);
    let u = update(BITSTAMP, 7, vec![(152, 1), (152, 4)], vec![(161, 2), (161, 0)]);
    assert!(ob.can_update(&u));
    assert_eq!(ob.update(u), Ok(()));
    assert_eq!(bid_at(&ob, BITSTAMP, 152), Some(4));
    assert_eq!(ask_at(&ob, BITSTAMP, 161), None);
    assert_eq!(ob.ask_min, 160);
}
