use orderbookmerger::book::{DepthSnapshot, Exchange, PriceLevel};
use orderbookmerger::decimal::Decimal;
use orderbookmerger::engine::SharedEngine;
use orderbookmerger::service::{Aggregator, Summary};
use orderbookmerger::state::SharedBookState;
use std::sync::{Arc, Mutex};

fn snapshot(bid: u64, ask: u64) -> DepthSnapshot {
    let one = Decimal { units: 100_000_000 };
    DepthSnapshot {
        bids: vec![PriceLevel { price: Decimal { units: bid }, quantity: one }],
        asks: vec![PriceLevel { price: Decimal { units: ask }, quantity: one }],
    }
}

fn is_whole(summary: &Summary) -> bool {
    if summary.bids.len() > 11 || summary.asks.len() > 11 {
        return false;
    }
    match (summary.bids.first(), summary.asks.first()) {
        (Some(bid), Some(ask)) => {
            summary.spread == Some(ask.price.units as i128 - bid.price.units as i128)
        }
        _ => summary.spread.is_none(),
    }
}

fn summary_for(service: &Aggregator, held: &Mutex<SharedBookState>) -> Summary {
    let guard = held.lock().expect("the lock is sound");
    service.book_summary(&guard)
}

#[test]
fn subscribers_between_updates_each_get_one_whole_summary() {
    let mut engine = SharedEngine::new();
    let state = Arc::new(Mutex::new(SharedBookState::new()));
    let subscribers: Vec<(Aggregator, Arc<Mutex<SharedBookState>>)> =
        (0..8).map(|_| (Aggregator::default(), Arc::clone(&state))).collect();
    for round in 0..50u64 {
        {
            let mut guard = state.lock().expect("the lock is sound");
            let one = snapshot(1000 + round, 3000 + 2 * round);
            assert!(engine.submit(&mut guard, Exchange::Bitstamp, Ok(one)));
        }
        let first: Vec<Summary> =
            subscribers.iter().map(|(service, held)| summary_for(service, held)).collect();
        {
            let mut guard = state.lock().expect("the lock is sound");
            let two = snapshot(900 + round, 2900 + 3 * round);
            assert!(engine.submit(&mut guard, Exchange::Binance, Ok(two)));
        }
        let second: Vec<Summary> =
            subscribers.iter().map(|(service, held)| summary_for(service, held)).collect();
        assert_eq!(first.len(), 8);
        assert_eq!(second.len(), 8);
        for summary in &first {
            assert!(is_whole(summary));
            assert_eq!(summary.bids[0].price, Decimal { units: 1000 + round });
        }
        for summary in &second {
            assert!(is_whole(summary));
            assert_eq!(summary.bids.len(), 2);
            assert_eq!(summary.asks[0].price, Decimal { units: 2900 + 3 * round });
            assert_eq!(summary.spread, Some((2900 + 3 * round) as i128 - (1000 + round) as i128));
        }
    }
    let last = summary_for(&Aggregator::default(), &state);
    assert_eq!(last.bids.len(), 2);
    assert_eq!(last.bids[0].price, Decimal { units: 1049 });
    assert_eq!(last.asks[0].price, Decimal { units: 3047 });
    assert_eq!(last.spread, Some(3047 - 1049));
}

#[test]
fn a_new_state_holds_the_empty_book_and_a_read_is_what_was_last_put() {
    let mut state = SharedBookState::new();
    let book = state.read();
    assert!(book.bids.is_empty() && book.asks.is_empty());
    assert_eq!(book.spread, None);
    let mut engine = SharedEngine::new();
    assert!(engine.inner.first.bids.is_empty() && engine.inner.second.asks.is_empty());
    assert!(engine.submit(&mut state, Exchange::Binance, Ok(snapshot(7, 9))));
    assert_eq!(engine.inner.second.bids.len(), 1);
    assert!(engine.inner.first.bids.is_empty());
    let book = state.read();
    assert_eq!(book.bids.len(), 1);
    assert_eq!(book.bids[0].price, Decimal { units: 7 });
    assert_eq!(book.bids[0].exchange, Exchange::Binance);
    assert_eq!(book.asks[0].price, Decimal { units: 9 });
    assert_eq!(book.spread, Some(2));
    let again = state.read();
    assert_eq!(again.bids, book.bids);
    assert_eq!(again.asks, book.asks);
    assert_eq!(again.spread, book.spread);
}
