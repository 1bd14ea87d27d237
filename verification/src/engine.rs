//! The merge engine: the latest snapshot of each venue and the book that
//! the two make together.

use vstd::prelude::*;
use crate::book::{compute_spread, DepthSnapshot, Exchange, Order, OrderBook, Side, CAP_N};
use crate::merge::{
    lemma_merged_len, lemma_merged_ranked, lemma_merged_strictly_ranked, merge_levels, merged,
    disjoint_prices, orders_ranked, orders_strictly_ranked, ranked, strictly_ranked,
};
use crate::messages::{sides_of, BinanceMessage, BitstampMessage, DecodeError, Priceinfo};
use crate::state::SharedBookState;

verus! {

/// The latest snapshot that each venue delivered.
#[derive(Debug)]
pub struct MergeEngine {
    pub first: DepthSnapshot,
    pub second: DepthSnapshot,
}

/// `book` is the merged book of the two snapshots: on each side the best
/// `CAP_N` levels of both, and the spread of the two best.
pub open spec fn is_book_of(first: DepthSnapshot, second: DepthSnapshot, book: OrderBook) -> bool {
    &&& book.bids@ == merged(Side::Bid, first.bids@, second.bids@, CAP_N as nat)
    &&& book.asks@ == merged(Side::Ask, first.asks@, second.asks@, CAP_N as nat)
    &&& book.wf()
}

/// Merges two venues' snapshots into one book.
pub fn merge_snapshots(first: &DepthSnapshot, second: &DepthSnapshot) -> (r: OrderBook)
    ensures
        is_book_of(*first, *second, r),
{
    let bids = merge_levels(Side::Bid, &first.bids, &second.bids, CAP_N);
    let asks = merge_levels(Side::Ask, &first.asks, &second.asks, CAP_N);
    proof {
        lemma_merged_len(Side::Bid, first.bids@, second.bids@, CAP_N as nat);
        lemma_merged_len(Side::Ask, first.asks@, second.asks@, CAP_N as nat);
    }
    let spread = compute_spread(&bids, &asks);
    OrderBook { bids, asks, spread }
}

/// The two sides of the merged book of one message of each venue, or the
/// error of the first message that has one.
pub open spec fn merged_sides_of(
    first_bids: Seq<Priceinfo>,
    first_asks: Seq<Priceinfo>,
    second_bids: Seq<Priceinfo>,
    second_asks: Seq<Priceinfo>,
) -> Result<(Seq<Order>, Seq<Order>), DecodeError> {
    match sides_of(first_bids, first_asks) {
        Err(e) => Err(e),
        Ok(one) => match sides_of(second_bids, second_asks) {
            Err(e) => Err(e),
            Ok(two) => Ok(
                (
                    merged(Side::Bid, one.0, two.0, CAP_N as nat),
                    merged(Side::Ask, one.1, two.1, CAP_N as nat),
                ),
            ),
        },
    }
}

/// Decodes one depth message of each venue and merges the two into one
/// book. An error in the first venue's message is reported before one in the
/// second's.
pub fn mergeorderbooks(first: &BitstampMessage, second: &BinanceMessage) -> (r: Result<
    OrderBook,
    DecodeError,
>)
    ensures
        match r {
            Ok(book) => book.wf() && merged_sides_of(
                first.data.bids@,
                first.data.asks@,
                second.bids@,
                second.asks@,
            ) == Ok::<_, DecodeError>((book.bids@, book.asks@)),
            Err(e) => merged_sides_of(
                first.data.bids@,
                first.data.asks@,
                second.bids@,
                second.asks@,
            ) == Err::<(Seq<Order>, Seq<Order>), _>(e),
        },
{
    match first.decode() {
        Err(e) => Err(e),
        Ok(one) => match second.decode() {
            Err(e) => Err(e),
            Ok(two) => Ok(merge_snapshots(&one, &two)),
        },
    }
}

/// `after` is the engine `before` once it has taken in what decoding one
/// message of `source` gave: a snapshot has replaced that venue's earlier one
/// and the other venue's has stayed; a decode failure has changed nothing.
pub open spec fn feeds(
    before: MergeEngine,
    source: Exchange,
    decoded: Result<DepthSnapshot, DecodeError>,
    after: MergeEngine,
) -> bool {
    match decoded {
        Err(_) => after == before,
        Ok(snapshot) => match source {
            Exchange::Bitstamp => after.first == snapshot && after.second == before.second,
            Exchange::Binance => after.second == snapshot && after.first == before.first,
        },
    }
}

impl MergeEngine {
    /// An engine that has heard from neither venue.
    pub fn new() -> (r: MergeEngine)
        ensures
            r.first.bids@.len() == 0,
            r.first.asks@.len() == 0,
            r.second.bids@.len() == 0,
            r.second.asks@.len() == 0,
    {
        MergeEngine { first: DepthSnapshot::empty(), second: DepthSnapshot::empty() }
    }

    /// The merged book of the latest snapshots.
    pub fn book(&self) -> (r: OrderBook)
        ensures
            is_book_of(self.first, self.second, r),
    {
        merge_snapshots(&self.first, &self.second)
    }

    /// Takes in what decoding one message of the venue `source` gave. A
    /// snapshot replaces that venue's earlier one, the other venue's stays, and
    /// the new merged book is handed back. A decode failure changes nothing and
    /// hands back no book.
    pub fn apply(&mut self, source: Exchange, decoded: Result<DepthSnapshot, DecodeError>) -> (r:
        Option<OrderBook>)
        ensures
            match decoded {
                Err(_) => *final(self) == *old(self) && r is None,
                Ok(snapshot) => {
                    &&& match source {
                        Exchange::Bitstamp => final(self).first == snapshot && final(self).second
                            == old(self).second,
                        Exchange::Binance => final(self).second == snapshot && final(self).first
                            == old(self).first,
                    }
                    &&& r is Some
                    &&& is_book_of(final(self).first, final(self).second, r->0)
                },
            },
    {
        match decoded {
            Err(_) => None,
            Ok(snapshot) => {
                match source {
                    Exchange::Bitstamp => {
                        self.first = snapshot;
                    },
                    Exchange::Binance => {
                        self.second = snapshot;
                    },
                }
                Some(merge_snapshots(&self.first, &self.second))
            },
        }
    }

    /// One step of a venue's feed: takes in what decoding a message gave and,
    /// where that was a snapshot, publishes the new merged book in `state`.
    /// After a decode failure the engine and the published book are as they
    /// were. Says whether a book was published.
    pub fn feed(
        &mut self,
        state: &mut SharedBookState,
        source: Exchange,
        decoded: Result<DepthSnapshot, DecodeError>,
    ) -> (published: bool)
        ensures
            published == (decoded is Ok),
            feeds(*old(self), source, decoded, *final(self)),
            match decoded {
                Err(_) => *final(state) == *old(state),
                Ok(_) => is_book_of(final(self).first, final(self).second, final(state).held()),
            },
    {
        match self.apply(source, decoded) {
            None => false,
            Some(book) => {
                state.update(book);
                true
            },
        }
    }
}

/// The one engine that both venues' connectors write to. Whoever shares it
/// among threads keeps it behind a lock for the length of one `submit`, so
/// that a snapshot is merged and its book published before another connector
/// gets its turn.
#[derive(Debug)]
pub struct SharedEngine {
    pub inner: MergeEngine,
}

impl SharedEngine {
    /// An engine that has heard from neither venue.
    pub fn new() -> (r: SharedEngine)
        ensures
            r.inner.first.bids@.len() == 0,
            r.inner.first.asks@.len() == 0,
            r.inner.second.bids@.len() == 0,
            r.inner.second.asks@.len() == 0,
    {
        SharedEngine { inner: MergeEngine::new() }
    }

    /// Hands the engine what decoding one message of `source` gave. A
    /// snapshot replaces that venue's earlier one and the merged book of both
    /// venues' latest is published in `state`; after a decode failure the
    /// engine and the published book are as they were. Says whether a book was
    /// published.
    pub fn submit(
        &mut self,
        state: &mut SharedBookState,
        source: Exchange,
        decoded: Result<DepthSnapshot, DecodeError>,
    ) -> (published: bool)
        ensures
            published == (decoded is Ok),
            feeds(old(self).inner, source, decoded, final(self).inner),
            match decoded {
                Err(_) => *final(state) == *old(state),
                Ok(_) => is_book_of(
                    final(self).inner.first,
                    final(self).inner.second,
                    final(state).held(),
                ),
            },
    {
        self.inner.feed(state, source, decoded)
    }
}

/// Each side of the snapshot comes best first: bids descending, asks
/// ascending.
pub open spec fn snapshot_ranked(s: DepthSnapshot) -> bool {
    ranked(Side::Bid, s.bids@) && ranked(Side::Ask, s.asks@)
}

/// Each side of the snapshot is strictly ranked.
pub open spec fn snapshot_strictly_ranked(s: DepthSnapshot) -> bool {
    strictly_ranked(Side::Bid, s.bids@) && strictly_ranked(Side::Ask, s.asks@)
}

/// The merged book of snapshots that come best first has at most `CAP_N`
/// orders a side, its bids descending and its asks ascending by price.
pub proof fn lemma_book_ranked(first: DepthSnapshot, second: DepthSnapshot, book: OrderBook)
    requires
        is_book_of(first, second, book),
        snapshot_ranked(first),
        snapshot_ranked(second),
    ensures
        book.bids@.len() <= CAP_N,
        book.asks@.len() <= CAP_N,
        orders_ranked(Side::Bid, book.bids@),
        orders_ranked(Side::Ask, book.asks@),
{
    lemma_merged_ranked(Side::Bid, first.bids@, second.bids@, CAP_N as nat);
    lemma_merged_ranked(Side::Ask, first.asks@, second.asks@, CAP_N as nat);
}

/// The merged book of strictly ranked snapshots that share no price on
/// either side has its bids strictly descending and its asks strictly
/// ascending, at most `CAP_N` of each.
pub proof fn lemma_book_strictly_ranked(first: DepthSnapshot, second: DepthSnapshot, book: OrderBook)
    requires
        is_book_of(first, second, book),
        snapshot_strictly_ranked(first),
        snapshot_strictly_ranked(second),
        disjoint_prices(first.bids@, second.bids@),
        disjoint_prices(first.asks@, second.asks@),
    ensures
        book.bids@.len() <= CAP_N,
        book.asks@.len() <= CAP_N,
        orders_strictly_ranked(Side::Bid, book.bids@),
        orders_strictly_ranked(Side::Ask, book.asks@),
{
    lemma_merged_strictly_ranked(Side::Bid, first.bids@, second.bids@, CAP_N as nat);
    lemma_merged_strictly_ranked(Side::Ask, first.asks@, second.asks@, CAP_N as nat);
}

/// The spread of a merged book is its best ask less its best bid where it
/// has both, and absent where a side is empty.
pub proof fn lemma_book_spread(first: DepthSnapshot, second: DepthSnapshot, book: OrderBook)
    requires
        is_book_of(first, second, book),
    ensures
        book.bids@.len() > 0 && book.asks@.len() > 0 ==> book.spread == Some(
            (book.asks@[0].price.units - book.bids@[0].price.units) as i128,
        ),
        book.bids@.len() == 0 || book.asks@.len() == 0 ==> book.spread is None,
{
}

/// Snapshots with the same levels give the same merged book.
pub proof fn lemma_merge_deterministic(
    first: DepthSnapshot,
    second: DepthSnapshot,
    book: OrderBook,
    first_again: DepthSnapshot,
    second_again: DepthSnapshot,
    book_again: OrderBook,
)
    requires
        is_book_of(first, second, book),
        is_book_of(first_again, second_again, book_again),
        first.bids@ == first_again.bids@,
        first.asks@ == first_again.asks@,
        second.bids@ == second_again.bids@,
        second.asks@ == second_again.asks@,
    ensures
        book.bids@ == book_again.bids@,
        book.asks@ == book_again.asks@,
        book.spread == book_again.spread,
{
}

/// The merged book of two snapshots without levels is empty and has no
/// spread.
pub proof fn lemma_empty_book(first: DepthSnapshot, second: DepthSnapshot, book: OrderBook)
    requires
        is_book_of(first, second, book),
        first.bids@.len() == 0,
        first.asks@.len() == 0,
        second.bids@.len() == 0,
        second.asks@.len() == 0,
    ensures
        book.bids@.len() == 0,
        book.asks@.len() == 0,
        book.spread is None,
{
    lemma_merged_len(Side::Bid, first.bids@, second.bids@, CAP_N as nat);
    lemma_merged_len(Side::Ask, first.asks@, second.asks@, CAP_N as nat);
}

} // verus!
