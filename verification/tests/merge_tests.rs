use orderbookmerger::book::{
    compute_spread, copy_orders, DepthSnapshot, Exchange, Order, OrderBook, PriceLevel, Side, CAP_N,
};
use orderbookmerger::decimal::{parse_decimal, Decimal};
use orderbookmerger::engine::{merge_snapshots, mergeorderbooks, MergeEngine};
use orderbookmerger::merge::{is_ranked, is_strictly_ranked, merge_levels, mergeasks, mergebids};
use orderbookmerger::messages::{BinanceMessage, BitstampMessage, Data, DecodeError, Priceinfo};
use orderbookmerger::state::SharedBookState;

fn dec(text: &str) -> Decimal {
    parse_decimal(text).expect("a decimal numeral")
}

fn level(price: &str, quantity: &str) -> PriceLevel {
    PriceLevel { price: dec(price), quantity: dec(quantity) }
}

fn order(exchange: Exchange, price: &str, qty: &str) -> Order {
    Order { exchange, price: dec(price), qty: dec(qty) }
}

fn descending(from: u64, count: u64) -> Vec<PriceLevel> {
    (0..count)
        .map(|i| PriceLevel {
            price: Decimal { units: (from - i) * 100_000_000 },
            quantity: Decimal { units: 100_000_000 },
        })
        .collect()
}

fn ascending(from: u64, count: u64) -> Vec<PriceLevel> {
    (0..count)
        .map(|i| PriceLevel {
            price: Decimal { units: (from + i) * 100_000_000 },
            quantity: Decimal { units: 100_000_000 },
        })
        .collect()
}

#[test]
fn merge_stops_at_the_cap() {
    let a = vec![level("100", "1"), level("99", "1")];
    let b = vec![level("100.5", "2"), level("98", "1")];
    let merged = merge_levels(Side::Bid, &a, &b, 3);
    assert_eq!(
        merged,
        vec![
            order(Exchange::Binance, "100.5", "2"),
            order(Exchange::Bitstamp, "100", "1"),
            order(Exchange::Bitstamp, "99", "1"),
        ]
    );
}

#[test]
fn merge_returns_all_levels_when_fewer_than_the_cap() {
    let a = vec![level("100", "1"), level("99", "1")];
    let b = vec![level("100.5", "2"), level("98", "1")];
    let merged = mergebids(a, b);
    assert_eq!(
        merged,
        vec![
            order(Exchange::Binance, "100.5", "2"),
            order(Exchange::Bitstamp, "100", "1"),
            order(Exchange::Bitstamp, "99", "1"),
            order(Exchange::Binance, "98", "1"),
        ]
    );
}

#[test]
fn merge_of_one_empty_venue_is_the_other() {
    let a = vec![level("7", "1"), level("8", "2")];
    let merged = mergeasks(Vec::new(), a);
    assert_eq!(
        merged,
        vec![order(Exchange::Binance, "7", "1"), order(Exchange::Binance, "8", "2")]
    );
    assert_eq!(mergeasks(Vec::new(), Vec::new()), Vec::new());
    assert_eq!(merge_levels(Side::Bid, &descending(50, 5), &descending(40, 5), 0), Vec::new());
}

#[test]
fn merged_bids_descend_and_asks_ascend_within_the_cap() {
    let bids = mergebids(descending(1000, 10), descending(995, 10));
    assert_eq!(bids.len(), 11);
    assert_eq!(CAP_N, 11);
    for pair in bids.windows(2) {
        assert!(pair[0].price.units >= pair[1].price.units);
    }
    let asks = mergeasks(ascending(1001, 10), ascending(1006, 10));
    assert_eq!(asks.len(), 11);
    for pair in asks.windows(2) {
        assert!(pair[0].price.units <= pair[1].price.units);
    }
    assert_eq!(asks[0], order(Exchange::Bitstamp, "1001", "1"));
    assert_eq!(asks[10], order(Exchange::Binance, "1008", "1"));
}

#[test]
fn merged_sides_are_strict_when_venues_share_no_price() {
    let a = vec![level("10.5", "1"), level("10.3", "1"), level("10.1", "1")];
    let b = vec![level("10.4", "1"), level("10.2", "1")];
    let bids = mergebids(a, b);
    assert_eq!(bids.len(), 5);
    for pair in bids.windows(2) {
        assert!(pair[0].price.units > pair[1].price.units);
    }
    let a = vec![level("11.1", "1"), level("11.3", "1")];
    let b = vec![level("11.2", "1"), level("11.4", "1")];
    let asks = mergeasks(a, b);
    for pair in asks.windows(2) {
        assert!(pair[0].price.units < pair[1].price.units);
    }
}

#[test]
fn ties_go_to_the_first_venue() {
    let a = vec![level("100", "1"), level("99", "3")];
    let b = vec![level("100", "2"), level("99", "4")];
    let bids = mergebids(a, b);
    assert_eq!(
        bids,
        vec![
            order(Exchange::Bitstamp, "100", "1"),
            order(Exchange::Binance, "100", "2"),
            order(Exchange::Bitstamp, "99", "3"),
            order(Exchange::Binance, "99", "4"),
        ]
    );
    let a = vec![level("5", "1")];
    let b = vec![level("5", "2")];
    let asks = mergeasks(a, b);
    assert_eq!(
        asks,
        vec![order(Exchange::Bitstamp, "5", "1"), order(Exchange::Binance, "5", "2")]
    );
}

#[test]
fn merge_is_deterministic() {
    let first = mergebids(descending(500, 9), descending(498, 9));
    let second = mergebids(descending(500, 9), descending(498, 9));
    assert_eq!(first, second);
    assert_eq!(first.len(), 11);
}

#[test]
fn spread_is_best_ask_minus_best_bid() {
    let first = DepthSnapshot {
        bids: vec![level("100", "1")],
        asks: vec![level("100.75", "1")],
    };
    let second = DepthSnapshot {
        bids: vec![level("100.25", "1")],
        asks: vec![level("101", "1")],
    };
    let book = merge_snapshots(&first, &second);
    assert_eq!(book.bids[0], order(Exchange::Binance, "100.25", "1"));
    assert_eq!(book.asks[0], order(Exchange::Bitstamp, "100.75", "1"));
    assert_eq!(book.spread, Some(50_000_000));
    assert!(book.is_well_formed());
}

#[test]
fn spread_may_be_negative_when_the_venues_cross() {
    let first = DepthSnapshot { bids: vec![level("101", "1")], asks: Vec::new() };
    let second = DepthSnapshot { bids: Vec::new(), asks: vec![level("100", "1")] };
    let book = merge_snapshots(&first, &second);
    assert_eq!(book.spread, Some(-100_000_000));
}

#[test]
fn spread_is_absent_when_a_side_is_empty() {
    let first = DepthSnapshot { bids: vec![level("100", "1")], asks: Vec::new() };
    let second = DepthSnapshot { bids: vec![level("99", "1")], asks: Vec::new() };
    let book = merge_snapshots(&first, &second);
    assert_eq!(book.bids.len(), 2);
    assert_eq!(book.spread, None);
    let bids = vec![order(Exchange::Bitstamp, "1", "1")];
    assert_eq!(compute_spread(&bids, &Vec::new()), None);
    assert_eq!(compute_spread(&Vec::new(), &bids), None);
    let asks = vec![order(Exchange::Binance, "1.5", "1")];
    assert_eq!(compute_spread(&bids, &asks), Some(50_000_000));
}

#[test]
fn empty_engine_gives_the_empty_book() {
    let engine = MergeEngine::new();
    let book = engine.book();
    assert!(book.bids.is_empty());
    assert!(book.asks.is_empty());
    assert_eq!(book.spread, None);
    let fresh = OrderBook::new();
    assert!(fresh.bids.is_empty() && fresh.asks.is_empty());
    assert_eq!(fresh.spread, None);
    assert!(fresh.is_well_formed());
}

#[test]
fn a_snapshot_replaces_only_its_own_venue() {
    let mut engine = MergeEngine::new();
    let one = DepthSnapshot { bids: vec![level("10", "1")], asks: vec![level("11", "1")] };
    let book = engine.apply(Exchange::Bitstamp, Ok(one)).expect("a book");
    assert_eq!(book.bids, vec![order(Exchange::Bitstamp, "10", "1")]);
    assert_eq!(book.spread, Some(100_000_000));
    let two = DepthSnapshot { bids: vec![level("10.5", "2")], asks: vec![level("10.75", "2")] };
    let book = engine.apply(Exchange::Binance, Ok(two)).expect("a book");
    assert_eq!(
        book.bids,
        vec![order(Exchange::Binance, "10.5", "2"), order(Exchange::Bitstamp, "10", "1")]
    );
    assert_eq!(
        book.asks,
        vec![order(Exchange::Binance, "10.75", "2"), order(Exchange::Bitstamp, "11", "1")]
    );
    assert_eq!(book.spread, Some(25_000_000));
    let three = DepthSnapshot { bids: vec![level("9", "1")], asks: Vec::new() };
    let book = engine.apply(Exchange::Bitstamp, Ok(three)).expect("a book");
    assert_eq!(
        book.bids,
        vec![order(Exchange::Binance, "10.5", "2"), order(Exchange::Bitstamp, "9", "1")]
    );
    assert_eq!(book.asks, vec![order(Exchange::Binance, "10.75", "2")]);
    assert_eq!(engine.second.bids, vec![level("10.5", "2")]);
}

#[test]
fn a_decode_failure_changes_nothing() {
    let mut engine = MergeEngine::new();
    let mut state = SharedBookState::new();
    let one = DepthSnapshot { bids: vec![level("10", "1")], asks: vec![level("11", "1")] };
    assert!(engine.feed(&mut state, Exchange::Bitstamp, Ok(one)));
    let before = state.read();
    assert!(!engine.feed(&mut state, Exchange::Bitstamp, Err(DecodeError::InvalidPrice)));
    assert!(!engine.feed(&mut state, Exchange::Binance, Err(DecodeError::InvalidQuantity)));
    assert_eq!(engine.apply(Exchange::Binance, Err(DecodeError::InvalidPrice)).is_none(), true);
    let after = state.read();
    assert_eq!(before.bids, after.bids);
    assert_eq!(before.asks, after.asks);
    assert_eq!(before.spread, after.spread);
    assert_eq!(after.bids, vec![order(Exchange::Bitstamp, "10", "1")]);
    assert_eq!(engine.first.bids, vec![level("10", "1")]);
    assert!(engine.second.bids.is_empty());
}

#[test]
fn update_book_recomputes_the_spread() {
    let mut book = OrderBook::new();
    book.update_book(
        vec![order(Exchange::Bitstamp, "20", "1")],
        vec![order(Exchange::Binance, "20.00000001", "1")],
    );
    assert_eq!(book.spread, Some(1));
    book.update_book(Vec::new(), vec![order(Exchange::Binance, "21", "1")]);
    assert_eq!(book.spread, None);
    assert_eq!(book.asks.len(), 1);
    let copy = book.return_book();
    assert_eq!(copy.asks, book.asks);
    assert_eq!(copy.bids, book.bids);
    assert_eq!(copy.spread, book.spread);
    assert_eq!(copy_orders(&book.asks), book.asks);
}

#[test]
fn ill_formed_books_are_not_published() {
    let mut state = SharedBookState::new();
    let stale = OrderBook {
        bids: vec![order(Exchange::Bitstamp, "20", "1")],
        asks: vec![order(Exchange::Binance, "21", "1")],
        spread: Some(5),
    };
    assert!(!stale.is_well_formed());
    assert!(!state.try_update(stale));
    let missing = OrderBook {
        bids: vec![order(Exchange::Bitstamp, "20", "1")],
        asks: vec![order(Exchange::Binance, "21", "1")],
        spread: None,
    };
    assert!(!state.try_update(missing));
    let long = OrderBook {
        bids: (0..12).map(|_| order(Exchange::Bitstamp, "20", "1")).collect(),
        asks: Vec::new(),
        spread: None,
    };
    assert!(!state.try_update(long));
    assert!(state.read().bids.is_empty());
    let good = OrderBook {
        bids: vec![order(Exchange::Bitstamp, "20", "1")],
        asks: vec![order(Exchange::Binance, "21", "1")],
        spread: Some(100_000_000),
    };
    assert!(state.try_update(good));
    assert_eq!(state.read().spread, Some(100_000_000));
}

fn info(price: &str, qty: &str) -> Priceinfo {
    Priceinfo { price: price.to_string(), qty: qty.to_string() }
}

#[test]
fn two_messages_merge_into_one_book() {
    let first = BitstampMessage {
        data: Data {
            bids: vec![info("27000.5", "0.1"), info("27000", "2")],
            asks: vec![info("27001", "1"), info("27003", "1")],
        },
    };
    let second = BinanceMessage {
        bids: vec![info("27000.75", "0.5")],
        asks: vec![info("27001", "3"), info("27002", "1")],
    };
    let book = mergeorderbooks(&first, &second).expect("a book");
    assert_eq!(
        book.bids,
        vec![
            order(Exchange::Binance, "27000.75", "0.5"),
            order(Exchange::Bitstamp, "27000.5", "0.1"),
            order(Exchange::Bitstamp, "27000", "2"),
        ]
    );
    assert_eq!(
        book.asks,
        vec![
            order(Exchange::Bitstamp, "27001", "1"),
            order(Exchange::Binance, "27001", "3"),
            order(Exchange::Binance, "27002", "1"),
            order(Exchange::Bitstamp, "27003", "1"),
        ]
    );
    assert_eq!(book.spread, Some(25_000_000));
}

#[test]
fn the_first_message_in_error_decides() {
    let good = BitstampMessage { data: Data { bids: vec![info("1", "1")], asks: Vec::new() } };
    let bad = BitstampMessage { data: Data { bids: vec![info("1", "one")], asks: Vec::new() } };
    let other_bad = BinanceMessage { bids: vec![info("1e3", "1")], asks: Vec::new() };
    assert_eq!(mergeorderbooks(&bad, &other_bad).err(), Some(DecodeError::InvalidQuantity));
    assert_eq!(mergeorderbooks(&good, &other_bad).err(), Some(DecodeError::InvalidPrice));
}

#[test]
fn ranking_is_told_side_by_side() {
    let falling = vec![level("3", "1"), level("2", "1"), level("2", "1"), level("1", "1")];
    assert!(is_ranked(Side::Bid, &falling));
    assert!(!is_strictly_ranked(Side::Bid, &falling));
    assert!(!is_ranked(Side::Ask, &falling));
    let rising = vec![level("1", "1"), level("2", "1"), level("3", "1")];
    assert!(is_ranked(Side::Ask, &rising));
    assert!(is_strictly_ranked(Side::Ask, &rising));
    assert!(!is_ranked(Side::Bid, &rising));
    let bent = vec![level("3", "1"), level("1", "1"), level("2", "1")];
    assert!(!is_ranked(Side::Bid, &bent));
    assert!(!is_ranked(Side::Ask, &bent));
    assert!(is_ranked(Side::Bid, &Vec::new()));
    assert!(is_strictly_ranked(Side::Ask, &vec![level("1", "1")]));
}
