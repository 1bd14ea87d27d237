use orderbookmerger::book::{DepthSnapshot, Exchange, PriceLevel};
use orderbookmerger::connector::{
    channels, endpoint, endpoint_url, parse_endpoint, ConnectionError, Connector, FeedAction,
    FeedEvent, Phase,
};
use orderbookmerger::decimal::Decimal;
use orderbookmerger::engine::SharedEngine;
use orderbookmerger::messages::DecodeError;
use orderbookmerger::service::Aggregator;
use orderbookmerger::state::SharedBookState;

fn snapshot(bid: u64, ask: u64) -> DepthSnapshot {
    let one = Decimal { units: 100_000_000 };
    DepthSnapshot {
        bids: vec![PriceLevel { price: Decimal { units: bid }, quantity: one }],
        asks: vec![PriceLevel { price: Decimal { units: ask }, quantity: one }],
    }
}

#[test]
fn endpoints_and_channels_carry_the_pair() {
    assert_eq!(endpoint(Exchange::Bitstamp, "ethbtc"), "wss://ws.bitstamp.net");
    assert_eq!(
        endpoint(Exchange::Binance, "ethbtc"),
        "wss://stream.binance.com:9443/ws/ethbtc@depth20@100ms"
    );
    assert_eq!(channels(Exchange::Bitstamp, "ethbtc"), vec!["order_book_ethbtc".to_string()]);
    assert_eq!(
        channels(Exchange::Binance, "ethbtc"),
        vec!["ethbtc@aggTrade".to_string(), "ethbtc@depth".to_string()]
    );
}

#[test]
fn the_acknowledgment_is_discarded_unread() {
    let mut engine = SharedEngine::new();
    let mut state = SharedBookState::new();
    let mut connector = Connector::new(Exchange::Bitstamp);
    assert_eq!(connector.phase, Phase::AwaitingAck);
    assert!(connector.expects_ack());
    let action = connector.step(&mut engine, &mut state, FeedEvent::Frame(Ok(snapshot(5, 6))));
    assert_eq!(action, FeedAction::Discarded);
    assert_eq!(connector.phase, Phase::Streaming);
    assert!(!connector.expects_ack());
    assert!(state.read().bids.is_empty());
    let mut other = Connector::new(Exchange::Binance);
    assert_eq!(other.phase, Phase::Streaming);
    let action = other.step(&mut engine, &mut state, FeedEvent::Frame(Ok(snapshot(5, 6))));
    assert_eq!(action, FeedAction::Published);
    assert_eq!(state.read().bids.len(), 1);
}

#[test]
fn a_frame_that_does_not_decode_is_dropped() {
    let mut engine = SharedEngine::new();
    let mut state = SharedBookState::new();
    let mut connector = Connector::new(Exchange::Binance);
    assert_eq!(
        connector.step(&mut engine, &mut state, FeedEvent::Frame(Ok(snapshot(500, 700)))),
        FeedAction::Published
    );
    assert_eq!(state.read().spread, Some(200));
    for error in [
        DecodeError::UnexpectedBody,
        DecodeError::InvalidPrice,
        DecodeError::InvalidQuantity,
    ] {
        let action = connector.step(&mut engine, &mut state, FeedEvent::Frame(Err(error)));
        assert_eq!(action, FeedAction::Dropped);
        assert_eq!(connector.phase, Phase::Streaming);
        let book = state.read();
        assert_eq!(book.spread, Some(200));
        assert_eq!(book.bids.len(), 1);
        assert_eq!(book.asks.len(), 1);
    }
    assert_eq!(
        connector.step(&mut engine, &mut state, FeedEvent::Frame(Ok(snapshot(600, 700)))),
        FeedAction::Published
    );
    assert_eq!(state.read().spread, Some(100));
}

#[test]
fn a_failed_connector_leaves_the_last_book_standing() {
    let mut engine = SharedEngine::new();
    let mut state = SharedBookState::new();
    let mut first = Connector::new(Exchange::Bitstamp);
    let mut second = Connector::new(Exchange::Binance);
    first.step(&mut engine, &mut state, FeedEvent::Frame(Err(DecodeError::UnexpectedBody)));
    first.step(&mut engine, &mut state, FeedEvent::Frame(Ok(snapshot(500, 700))));
    second.step(&mut engine, &mut state, FeedEvent::Frame(Ok(snapshot(400, 600))));
    assert_eq!(state.read().spread, Some(100));
    assert_eq!(first.step(&mut engine, &mut state, FeedEvent::Failure), FeedAction::Halted);
    assert_eq!(first.phase, Phase::Stopped);
    assert!(!first.is_running());
    assert_eq!(
        first.step(&mut engine, &mut state, FeedEvent::Frame(Ok(snapshot(1, 2)))),
        FeedAction::Halted
    );
    assert_eq!(first.phase, Phase::Stopped);
    assert_eq!(state.read().spread, Some(100));
    assert!(second.is_running());
    assert_eq!(
        second.step(&mut engine, &mut state, FeedEvent::Frame(Ok(snapshot(450, 650)))),
        FeedAction::Published
    );
    let book = state.read();
    assert_eq!(book.bids.len(), 2);
    assert_eq!(book.bids[0].exchange, Exchange::Bitstamp);
    assert_eq!(book.bids[1].exchange, Exchange::Binance);
    assert_eq!(book.spread, Some(150));
    let mut waiting = Connector::new(Exchange::Bitstamp);
    assert_eq!(waiting.step(&mut engine, &mut state, FeedEvent::Failure), FeedAction::Halted);
    assert_eq!(waiting.phase, Phase::Stopped);
}

#[test]
fn the_shared_engine_publishes_only_snapshots() {
    let mut engine = SharedEngine::new();
    let mut state = SharedBookState::new();
    assert!(!engine.submit(&mut state, Exchange::Bitstamp, Err(DecodeError::InvalidPrice)));
    assert!(state.read().bids.is_empty());
    assert!(engine.submit(&mut state, Exchange::Bitstamp, Ok(snapshot(10, 30))));
    assert!(engine.submit(&mut state, Exchange::Binance, Ok(snapshot(20, 40))));
    let summary = Aggregator::default().book_summary(&state);
    assert_eq!(summary.spread, Some(10));
    assert_eq!(summary.bids[0].exchange, "binance");
    assert_eq!(summary.asks[0].exchange, "bitstamp");
}

#[test]
fn endpoints_parse_as_urls() {
    let url = endpoint_url(Exchange::Binance, "ethbtc").expect("a url");
    assert_eq!(url.scheme(), "wss");
    assert_eq!(url.host_str(), Some("stream.binance.com"));
    assert_eq!(url.port(), Some(9443));
    assert_eq!(url.path(), "/ws/ethbtc@depth20@100ms");
    let url = endpoint_url(Exchange::Bitstamp, "ethbtc").expect("a url");
    assert_eq!(url.host_str(), Some("ws.bitstamp.net"));
    assert_eq!(url.path(), "/");
    assert_eq!(url.as_str(), "wss://ws.bitstamp.net/");
}

#[test]
fn a_text_that_is_no_url_is_a_bad_endpoint() {
    assert_eq!(parse_endpoint("not a url").err(), Some(ConnectionError::BadEndpoint));
    assert_eq!(parse_endpoint("").err(), Some(ConnectionError::BadEndpoint));
    assert_eq!(parse_endpoint("wss://:9443/ws").err(), Some(ConnectionError::BadEndpoint));
    assert_eq!(parse_endpoint("wss://host:port/").err(), Some(ConnectionError::BadEndpoint));
    let url = parse_endpoint("wss://ws.bitstamp.net").expect("a url");
    assert_eq!(url.host_str(), Some("ws.bitstamp.net"));
}
