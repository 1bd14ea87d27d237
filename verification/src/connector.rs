//! One venue's feed connector: what it subscribes to and what it does with
//! each thing that its connection brings.

use vstd::prelude::*;
use vstd::string::*;
use crate::book::{DepthSnapshot, Exchange};
use crate::engine::{feeds, is_book_of, SharedEngine};
use crate::messages::DecodeError;
use crate::state::SharedBookState;
use url::{ParseError, Url};

verus! {

/// Where a connector stands.
#[derive(Clone, Copy, Debug, PartialEq, Eq, Structural)]
pub enum Phase {
    /// Subscribed; the venue's acknowledgment has not come yet.
    AwaitingAck,
    /// Every frame is a depth message.
    Streaming,
    /// The connection failed; nothing is taken in any more.
    Stopped,
}

/// What a connection brings.
#[derive(Debug)]
pub enum FeedEvent {
    /// A frame, with what decoding it gave.
    Frame(Result<DepthSnapshot, DecodeError>),
    /// The connection failed.
    Failure,
}

/// What a connector did with an event.
#[derive(Clone, Copy, Debug, PartialEq, Eq, Structural)]
pub enum FeedAction {
    /// The frame was the acknowledgment and was not looked at.
    Discarded,
    /// The frame did not decode and was dropped.
    Dropped,
    /// The snapshot was merged and the new book published.
    Published,
    /// The connector has stopped and did nothing.
    Halted,
}

/// Why a connector cannot be set up.
#[derive(Clone, Copy, Debug, PartialEq, Eq, Structural)]
pub enum ConnectionError {
    /// The endpoint is no absolute URL.
    BadEndpoint,
}

/// A parsed URL of the `url` crate, carried through unread.
#[verifier::external_type_specification]
#[verifier::external_body]
pub struct ExUrl(url::Url);

/// The error of the `url` crate's parser, carried through unread.
#[verifier::external_type_specification]
#[verifier::external_body]
pub struct ExParseError(url::ParseError);

/// Whether `url::Url::parse` accepts the text as an absolute URL.
pub uninterp spec fn url_parses(text: Seq<char>) -> bool;

/// Calls `url::Url::parse`. Believed of it, not proved: whether it accepts a
/// text depends on the text alone. Nothing is claimed of the URL that comes
/// out.
#[verifier::external_body]
fn parse_url(text: &str) -> (r: Result<Url, ParseError>)
    ensures
        r is Ok <==> url_parses(text@),
{
    Url::parse(text)
}

/// The connector of one venue.
#[derive(Debug)]
pub struct Connector {
    pub source: Exchange,
    pub phase: Phase,
}

/// The venue answers a subscription with an acknowledgment frame before its
/// first depth message.
pub open spec fn acknowledges(source: Exchange) -> bool {
    source == Exchange::Bitstamp
}

/// The endpoint of the venue's stream for the instrument `pair`.
pub open spec fn endpoint_of(source: Exchange, pair: Seq<char>) -> Seq<char> {
    match source {
        Exchange::Bitstamp => "wss://ws.bitstamp.net"@,
        Exchange::Binance => "wss://stream.binance.com:9443/ws/"@ + pair + "@depth20@100ms"@,
    }
}

/// The names that the subscription for `pair` asks the venue for: one
/// channel at the first venue, two streams at the second.
pub open spec fn channels_of(source: Exchange, pair: Seq<char>) -> Seq<Seq<char>> {
    match source {
        Exchange::Bitstamp => seq!["order_book_"@ + pair],
        Exchange::Binance => seq![pair + "@aggTrade"@, pair + "@depth"@],
    }
}

/// The phase after `event` came in `phase`.
pub open spec fn next_phase(phase: Phase, event: FeedEvent) -> Phase {
    match phase {
        Phase::Stopped => Phase::Stopped,
        _ => match event {
            FeedEvent::Failure => Phase::Stopped,
            FeedEvent::Frame(_) => Phase::Streaming,
        },
    }
}

/// What is done with `event` in `phase`.
pub open spec fn action_for(phase: Phase, event: FeedEvent) -> FeedAction {
    match phase {
        Phase::Stopped => FeedAction::Halted,
        Phase::AwaitingAck => match event {
            FeedEvent::Failure => FeedAction::Halted,
            FeedEvent::Frame(_) => FeedAction::Discarded,
        },
        Phase::Streaming => match event {
            FeedEvent::Failure => FeedAction::Halted,
            FeedEvent::Frame(Ok(_)) => FeedAction::Published,
            FeedEvent::Frame(Err(_)) => FeedAction::Dropped,
        },
    }
}

/// The endpoint of the venue's stream for the instrument `pair`.
pub fn endpoint(source: Exchange, pair: &str) -> (r: String)
    ensures
        r@ == endpoint_of(source, pair@),
{
    match source {
        Exchange::Bitstamp => String::from_str("wss://ws.bitstamp.net"),
        Exchange::Binance => String::from_str("wss://stream.binance.com:9443/ws/").concat(
            pair,
        ).concat("@depth20@100ms"),
    }
}

/// Parses the address of an endpoint.
pub fn parse_endpoint(address: &str) -> (r: Result<Url, ConnectionError>)
    ensures
        r is Ok <==> url_parses(address@),
        r is Err ==> r->Err_0 == ConnectionError::BadEndpoint,
{
    match parse_url(address) {
        Ok(url) => Ok(url),
        Err(_) => Err(ConnectionError::BadEndpoint),
    }
}

/// The parsed endpoint of the venue's stream for the instrument `pair`.
pub fn endpoint_url(source: Exchange, pair: &str) -> (r: Result<Url, ConnectionError>)
    ensures
        r is Ok <==> url_parses(endpoint_of(source, pair@)),
        r is Err ==> r->Err_0 == ConnectionError::BadEndpoint,
{
    let address = endpoint(source, pair);
    parse_endpoint(address.as_str())
}

/// The names that the subscription for `pair` asks the venue for.
pub fn channels(source: Exchange, pair: &str) -> (r: Vec<String>)
    ensures
        r@.len() == channels_of(source, pair@).len(),
        forall|i: int| 0 <= i < r@.len() ==> (#[trigger] r@[i])@ == channels_of(source, pair@)[i],
{
    let mut out: Vec<String> = Vec::new();
    match source {
        Exchange::Bitstamp => {
            out.push(String::from_str("order_book_").concat(pair));
        },
        Exchange::Binance => {
            out.push(String::from_str(pair).concat("@aggTrade"));
            out.push(String::from_str(pair).concat("@depth"));
        },
    }
    out
}

impl Connector {
    /// The connector of `source`, as it stands once its subscription is sent.
    pub fn new(source: Exchange) -> (r: Connector)
        ensures
            r.source == source,
            r.phase == if acknowledges(source) {
                Phase::AwaitingAck
            } else {
                Phase::Streaming
            },
    {
        match source {
            Exchange::Bitstamp => Connector { source, phase: Phase::AwaitingAck },
            Exchange::Binance => Connector { source, phase: Phase::Streaming },
        }
    }

    /// Whether the next frame is the acknowledgment, which needs no decoding.
    pub fn expects_ack(&self) -> (r: bool)
        ensures
            r == (self.phase == Phase::AwaitingAck),
    {
        self.phase == Phase::AwaitingAck
    }

    /// Whether the connector still takes events in.
    pub fn is_running(&self) -> (r: bool)
        ensures
            r == (self.phase != Phase::Stopped),
    {
        self.phase != Phase::Stopped
    }

    /// Takes one event in. The acknowledgment is discarded unread; a snapshot
    /// goes to the engine and its book is published; a frame that did not
    /// decode is dropped; a failure stops the connector for good. But for a
    /// snapshot that is published, the engine and the published book stay as
    /// they were.
    pub fn step(
        &mut self,
        engine: &mut SharedEngine,
        state: &mut SharedBookState,
        event: FeedEvent,
    ) -> (action: FeedAction)
        ensures
            final(self).source == old(self).source,
            final(self).phase == next_phase(old(self).phase, event),
            action == action_for(old(self).phase, event),
            match (action, event) {
                (FeedAction::Published, FeedEvent::Frame(decoded)) => {
                    &&& feeds(old(engine).inner, old(self).source, decoded, final(engine).inner)
                    &&& is_book_of(
                        final(engine).inner.first,
                        final(engine).inner.second,
                        final(state).held(),
                    )
                },
                _ => *final(engine) == *old(engine) && *final(state) == *old(state),
            },
    {
        match self.phase {
            Phase::Stopped => FeedAction::Halted,
            Phase::AwaitingAck => match event {
                FeedEvent::Failure => {
                    self.phase = Phase::Stopped;
                    FeedAction::Halted
                },
                FeedEvent::Frame(_) => {
                    self.phase = Phase::Streaming;
                    FeedAction::Discarded
                },
            },
            Phase::Streaming => match event {
                FeedEvent::Failure => {
                    self.phase = Phase::Stopped;
                    FeedAction::Halted
                },
                FeedEvent::Frame(decoded) => {
                    if engine.submit(state, self.source, decoded) {
                        FeedAction::Published
                    } else {
                        FeedAction::Dropped
                    }
                },
            },
        }
    }
}

} // verus!
